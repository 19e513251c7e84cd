use multi_machine_dedup::catalog::{Catalog, ContentId, InsertOutcome};
use multi_machine_dedup::hasher::hash;
use multi_machine_dedup::indexer::{index, index_entry, EntryOutcome, UNKNOWN_MIME};
use multi_machine_dedup::severity::Severity;
use multi_machine_dedup::options::{CLI, IndexOptions, SubCommand};
use multi_machine_dedup::walk::{FileContent, WalkEntry};
use std::path::PathBuf;

fn options(label: &str) -> IndexOptions {
    IndexOptions { label: label.to_string(), db: PathBuf::from("catalog.db"), path: PathBuf::from("/data") }
}

fn dir(path: &str) -> WalkEntry {
    WalkEntry::Directory { path: path.to_string() }
}

fn file(path: &str, bytes: &[u8], mime: Option<&str>) -> WalkEntry {
    WalkEntry::File {
        path: path.to_string(),
        read: Some(FileContent {
            size: bytes.len() as u64,
            bytes: bytes.to_vec(),
            mime: mime.map(|m| m.to_string()),
        }),
    }
}

fn unreadable(path: &str) -> WalkEntry {
    WalkEntry::File { path: path.to_string(), read: None }
}

#[test]
fn two_files_with_the_same_content_share_one_content_record() {
    let tree = vec![
        dir("/data"),
        file("/data/a.txt", b"hello", Some("text/plain")),
        file("/data/b.txt", b"hello", Some("text/plain")),
    ];
    let mut catalog = Catalog::new();
    let report = index(&options("alpha"), &mut catalog, &tree);
    assert_eq!(catalog.content_count(), 1);
    assert_eq!(catalog.file_count(), 2);
    let id = ContentId { hash: hash(b"hello"), size: 5 };
    assert_eq!(
        report.outcomes,
        vec![
            EntryOutcome::Directory,
            EntryOutcome::Indexed { id, content: InsertOutcome::Inserted, file: InsertOutcome::Inserted },
            EntryOutcome::Indexed {
                id,
                content: InsertOutcome::AlreadyExists,
                file: InsertOutcome::Inserted
            },
        ]
    );
    assert_eq!(report.contents_added, 1);
    assert_eq!(report.duplicate_contents, 1);
    assert_eq!(report.files_added, 2);
    assert_eq!(report.duplicate_paths, 0);
    assert_eq!(report.unreadable, 0);
    assert!(!report.aborted);
    let files = catalog.list_files(&"alpha".to_string());
    assert_eq!(files[0].full_path, "/data/a.txt");
    assert_eq!(files[1].full_path, "/data/b.txt");
    assert_eq!(files[0].host, "alpha");
    assert_eq!(files[0].hash, hash(b"hello"));
    assert_eq!(files[0].size, 5);
    let contents = catalog.list_content();
    assert_eq!(contents[0].mime, "text/plain");
}

#[test]
fn indexing_twice_reports_conflicts_and_keeps_the_counts() {
    let tree = vec![
        dir("/data"),
        file("/data/a.txt", b"hello", None),
        file("/data/c.txt", b"other", None),
        unreadable("/data/locked"),
    ];
    let mut catalog = Catalog::new();
    let first = index(&options("alpha"), &mut catalog, &tree);
    assert_eq!(first.files_added, 2);
    assert_eq!(first.contents_added, 2);
    assert_eq!(first.unreadable, 1);
    let files = catalog.file_count();
    let contents = catalog.content_count();
    assert_eq!(files, 2);
    assert_eq!(contents, 2);

    let second = index(&options("alpha"), &mut catalog, &tree);
    assert_eq!(catalog.file_count(), files);
    assert_eq!(catalog.content_count(), contents);
    assert_eq!(second.files_added, 0);
    assert_eq!(second.contents_added, 0);
    assert_eq!(second.duplicate_paths, 2);
    assert_eq!(second.duplicate_contents, 2);
    assert_eq!(second.unreadable, 1);
    assert_eq!(second.outcomes.len(), first.outcomes.len());
    assert_eq!(
        second.outcomes[1],
        EntryOutcome::Indexed {
            id: ContentId { hash: hash(b"hello"), size: 5 },
            content: InsertOutcome::AlreadyExists,
            file: InsertOutcome::AlreadyExists
        }
    );
}

#[test]
fn unreadable_file_is_skipped_and_the_rest_is_indexed() {
    let tree = vec![
        unreadable("/data/locked"),
        file("/data/a.txt", b"hello", None),
    ];
    let mut catalog = Catalog::new();
    let report = index(&options("alpha"), &mut catalog, &tree);
    assert_eq!(report.outcomes[0], EntryOutcome::Unreadable);
    assert_eq!(report.unreadable, 1);
    assert_eq!(report.files_added, 1);
    assert!(!report.aborted);
    assert_eq!(catalog.file_count(), 1);
    assert!(!catalog.has_file(&"alpha".to_string(), &"/data/locked".to_string()));
}

#[test]
fn failed_traversal_ends_the_run_and_keeps_what_was_recorded() {
    let tree = vec![
        file("/data/a.txt", b"hello", None),
        WalkEntry::Failure,
        file("/data/b.txt", b"later", None),
    ];
    let mut catalog = Catalog::new();
    let report = index(&options("alpha"), &mut catalog, &tree);
    assert!(report.aborted);
    assert_eq!(report.outcomes.len(), 2);
    assert_eq!(report.outcomes[1], EntryOutcome::TraversalFailed);
    assert_eq!(report.files_added, 1);
    assert_eq!(catalog.file_count(), 1);
    assert!(!catalog.has_file(&"alpha".to_string(), &"/data/b.txt".to_string()));
}

#[test]
fn directories_are_not_hashed() {
    let tree = vec![dir("/data"), dir("/data/sub")];
    let mut catalog = Catalog::new();
    let report = index(&options("alpha"), &mut catalog, &tree);
    assert_eq!(report.outcomes, vec![EntryOutcome::Directory, EntryOutcome::Directory]);
    assert_eq!(catalog.file_count(), 0);
    assert_eq!(catalog.content_count(), 0);
}

#[test]
fn empty_tree_changes_nothing() {
    let mut catalog = Catalog::new();
    let report = index(&options("alpha"), &mut catalog, &Vec::new());
    assert!(report.outcomes.is_empty());
    assert!(!report.aborted);
    assert_eq!(catalog.file_count(), 0);
}

#[test]
fn unknown_mime_is_recorded_as_the_sentinel() {
    assert_eq!(UNKNOWN_MIME, "N/A");
    let mut catalog = Catalog::new();
    index(&options("alpha"), &mut catalog, &vec![file("/data/a.bin", b"\x00\x01", None)]);
    assert_eq!(catalog.list_content()[0].mime, "N/A");
}

#[test]
fn first_mime_wins_when_content_repeats() {
    let tree = vec![
        file("/data/a", b"hello", Some("text/plain")),
        file("/data/b", b"hello", Some("application/octet-stream")),
    ];
    let mut catalog = Catalog::new();
    index(&options("alpha"), &mut catalog, &tree);
    let contents = catalog.list_content();
    assert_eq!(contents.len(), 1);
    assert_eq!(contents[0].mime, "text/plain");
}

#[test]
fn size_on_record_is_the_size_that_was_reported() {
    let entry = WalkEntry::File {
        path: "/data/grows".to_string(),
        read: Some(FileContent { size: 9, bytes: b"hello".to_vec(), mime: None }),
    };
    let mut catalog = Catalog::new();
    let outcome = index_entry(&"alpha".to_string(), &mut catalog, &entry);
    assert_eq!(
        outcome,
        EntryOutcome::Indexed {
            id: ContentId { hash: hash(b"hello"), size: 9 },
            content: InsertOutcome::Inserted,
            file: InsertOutcome::Inserted
        }
    );
    assert!(catalog.has_content(ContentId { hash: hash(b"hello"), size: 9 }));
}

#[test]
fn stale_path_is_a_conflict_and_is_not_refreshed() {
    let mut catalog = Catalog::new();
    index(&options("alpha"), &mut catalog, &vec![file("/data/a", b"old", None)]);
    let report = index(&options("alpha"), &mut catalog, &vec![file("/data/a", b"newer", None)]);
    assert_eq!(
        report.outcomes,
        vec![EntryOutcome::Indexed {
            id: ContentId { hash: hash(b"newer"), size: 5 },
            content: InsertOutcome::Inserted,
            file: InsertOutcome::AlreadyExists
        }]
    );
    assert_eq!(report.duplicate_paths, 1);
    assert_eq!(report.contents_added, 1);
    let files = catalog.list_files(&"alpha".to_string());
    assert_eq!(files.len(), 1);
    assert_eq!(files[0].hash, hash(b"old"));
    assert_eq!(files[0].size, 3);
}

#[test]
fn two_hosts_index_the_same_path_independently() {
    let tree = vec![file("/data/a", b"hello", None)];
    let mut catalog = Catalog::new();
    index(&options("alpha"), &mut catalog, &tree);
    let report = index(&options("beta"), &mut catalog, &tree);
    assert_eq!(report.files_added, 1);
    assert_eq!(report.duplicate_contents, 1);
    assert_eq!(catalog.file_count(), 2);
    assert_eq!(catalog.content_count(), 1);
}

#[test]
fn severity_of_each_outcome() {
    let id = ContentId { hash: 1, size: 1 };
    assert_eq!(EntryOutcome::Directory.severity(), Severity::Info);
    assert_eq!(EntryOutcome::Unreadable.severity(), Severity::Error);
    assert_eq!(EntryOutcome::TraversalFailed.severity(), Severity::Error);
    assert_eq!(
        EntryOutcome::Indexed { id, content: InsertOutcome::Inserted, file: InsertOutcome::Inserted }
            .severity(),
        Severity::Info
    );
    assert_eq!(
        EntryOutcome::Indexed {
            id,
            content: InsertOutcome::AlreadyExists,
            file: InsertOutcome::Inserted
        }
        .severity(),
        Severity::Warning
    );
    assert_eq!(
        EntryOutcome::Indexed {
            id,
            content: InsertOutcome::Inserted,
            file: InsertOutcome::AlreadyExists
        }
        .severity(),
        Severity::Error
    );
    assert_eq!(
        EntryOutcome::Indexed {
            id,
            content: InsertOutcome::AlreadyExists,
            file: InsertOutcome::AlreadyExists
        }
        .severity(),
        Severity::Error
    );
}

#[test]
fn command_line_carries_the_options_of_its_operation() {
    let cli = CLI { cmd: SubCommand::Index(options("alpha")) };
    match cli.cmd {
        SubCommand::Index(opt) => {
            assert_eq!(opt.label, "alpha");
            assert_eq!(opt.db, PathBuf::from("catalog.db"));
            assert_eq!(opt.path, PathBuf::from("/data"));
        }
        _ => panic!("another operation came out"),
    }
}

#[test]
fn order_of_the_entries_does_not_decide_what_is_recorded() {
    let forward = vec![
        dir("/data"),
        file("/data/a", b"one", Some("text/plain")),
        unreadable("/data/x"),
        file("/data/b", b"two", None),
        file("/data/c", b"one", Some("text/x-other")),
    ];
    let backward = vec![
        file("/data/c", b"one", Some("text/x-other")),
        file("/data/b", b"two", None),
        unreadable("/data/x"),
        file("/data/a", b"one", Some("text/plain")),
        dir("/data"),
    ];
    let mut first = Catalog::new();
    index(&options("alpha"), &mut first, &forward);
    let mut second = Catalog::new();
    index(&options("alpha"), &mut second, &backward);
    assert_eq!(first.file_count(), second.file_count());
    assert_eq!(first.content_count(), second.content_count());
    for record in first.list_files(&"alpha".to_string()) {
        assert!(second.has_file(&record.host, &record.full_path));
    }
    for record in second.list_files(&"alpha".to_string()) {
        assert!(first.has_file(&record.host, &record.full_path));
    }
    for id in first.content_ids() {
        assert!(second.has_content(id));
    }
    for id in second.content_ids() {
        assert!(first.has_content(id));
    }
    assert_eq!(first.list_content()[0].mime, "text/plain");
    assert_eq!(second.list_content()[0].mime, "text/x-other");
}
