use multi_machine_dedup::catalog::{Catalog, ContentId};
use multi_machine_dedup::comparator::compare;
use multi_machine_dedup::hasher::hash;
use multi_machine_dedup::indexer::index;
use multi_machine_dedup::severity::Severity;
use multi_machine_dedup::options::{CheckIntegrityOptions, CompareOptions, IndexOptions, SubCommand};
use multi_machine_dedup::walk::{FileContent, WalkEntry};
use std::path::PathBuf;

fn file(path: &str, bytes: &[u8]) -> WalkEntry {
    WalkEntry::File {
        path: path.to_string(),
        read: Some(FileContent { size: bytes.len() as u64, bytes: bytes.to_vec(), mime: None }),
    }
}

fn indexed(label: &str, tree: &Vec<WalkEntry>) -> Catalog {
    let options =
        IndexOptions { label: label.to_string(), db: PathBuf::from("x.db"), path: PathBuf::from("/") };
    let mut catalog = Catalog::new();
    index(&options, &mut catalog, tree);
    catalog
}

#[test]
fn catalog_covers_itself() {
    let catalog = indexed("alpha", &vec![file("/a", b"one"), file("/b", b"two")]);
    let report = compare(&catalog, &catalog);
    assert_eq!(report.entries, 2);
    assert!(report.missing.is_empty());
    assert_eq!(report.gap_count(), 0);
    assert!(report.covered());
}

#[test]
fn empty_catalogs_cover_each_other() {
    let report = compare(&Catalog::new(), &Catalog::new());
    assert_eq!(report.entries, 0);
    assert!(report.covered());
}

#[test]
fn comparison_has_a_direction() {
    let full = indexed("alpha", &vec![file("/a", b"content x")]);
    let empty = Catalog::new();
    let forward = compare(&full, &empty);
    assert_eq!(forward.entries, 1);
    assert_eq!(forward.missing, vec![ContentId { hash: hash(b"content x"), size: 9 }]);
    assert_eq!(forward.gap_count(), 1);
    assert!(!forward.covered());
    let backward = compare(&empty, &full);
    assert_eq!(backward.entries, 0);
    assert_eq!(backward.gap_count(), 0);
    assert!(backward.covered());
}

#[test]
fn paths_and_hosts_do_not_matter_to_coverage() {
    let first = indexed("alpha", &vec![file("/a", b"same"), file("/b", b"same")]);
    let second = indexed("beta", &vec![file("/elsewhere/c", b"same")]);
    assert!(compare(&first, &second).covered());
    assert!(compare(&second, &first).covered());
}

#[test]
fn gaps_come_in_the_order_of_the_first_catalog() {
    let first = indexed("alpha", &vec![file("/1", b"one"), file("/2", b"two"), file("/3", b"three")]);
    let second = indexed("beta", &vec![file("/2", b"two"), file("/4", b"four")]);
    let report = compare(&first, &second);
    assert_eq!(report.entries, 3);
    assert_eq!(
        report.missing,
        vec![
            ContentId { hash: hash(b"one"), size: 3 },
            ContentId { hash: hash(b"three"), size: 5 },
        ]
    );
    let report = compare(&second, &first);
    assert_eq!(report.entries, 2);
    assert_eq!(report.missing, vec![ContentId { hash: hash(b"four"), size: 4 }]);
}

#[test]
fn same_checksum_with_another_size_is_a_gap() {
    let mut first = Catalog::new();
    first.insert_content(7, 5, "a".to_string());
    first.insert_content(7, 6, "a".to_string());
    first.insert_content(u32::MAX, u64::MAX, "a".to_string());
    first.insert_content(0, 0, "a".to_string());
    let mut second = Catalog::new();
    second.insert_content(7, 6, "b".to_string());
    second.insert_content(u32::MAX, u64::MAX - 1, "b".to_string());
    second.insert_content(0, 1, "b".to_string());
    second.insert_content(1, 0, "b".to_string());
    let report = compare(&first, &second);
    assert_eq!(
        report.missing,
        vec![
            ContentId { hash: 7, size: 5 },
            ContentId { hash: u32::MAX, size: u64::MAX },
            ContentId { hash: 0, size: 0 },
        ]
    );
}

#[test]
fn mime_does_not_matter_to_coverage() {
    let mut first = Catalog::new();
    first.insert_content(7, 5, "text/plain".to_string());
    let mut second = Catalog::new();
    second.insert_content(7, 5, "N/A".to_string());
    assert!(compare(&first, &second).covered());
}

#[test]
fn each_operation_has_its_options() {
    let check = SubCommand::CheckIntegrity(CheckIntegrityOptions {
        label: "alpha".to_string(),
        db: PathBuf::from("a.db"),
    });
    let cmp = SubCommand::Compare(CompareOptions { db1: PathBuf::from("a.db"), db2: PathBuf::from("b.db") });
    match check {
        SubCommand::CheckIntegrity(opt) => {
            assert_eq!(opt.label, "alpha");
            assert_eq!(opt.db, PathBuf::from("a.db"));
        }
        _ => panic!("another operation came out"),
    }
    match cmp {
        SubCommand::Compare(opt) => {
            assert_eq!(opt.db1, PathBuf::from("a.db"));
            assert_eq!(opt.db2, PathBuf::from("b.db"));
        }
        _ => panic!("another operation came out"),
    }
}

#[test]
fn a_gap_makes_the_closing_line_an_error() {
    let full = indexed("alpha", &vec![file("/a", b"content x")]);
    assert_eq!(compare(&full, &Catalog::new()).severity(), Severity::Error);
    assert_eq!(compare(&full, &full).severity(), Severity::Info);
    assert_eq!(compare(&Catalog::new(), &full).severity(), Severity::Info);
}

#[test]
fn names_at_the_root_are_the_operations() {
    let full = indexed("alpha", &vec![file("/a", b"content x")]);
    let report = multi_machine_dedup::compare(&full, &full);
    assert!(report.covered());
    assert_eq!(multi_machine_dedup::hash(b"123456789"), 0xe306_9283);
    let options = multi_machine_dedup::CheckIntegrityOptions {
        label: "alpha".to_string(),
        db: PathBuf::from("a.db"),
    };
    let report = multi_machine_dedup::check_integrity(&options, &full, &vec![file("/a", b"content x")]);
    assert_eq!(report.ok_count, 1);
    let options = multi_machine_dedup::IndexOptions {
        label: "beta".to_string(),
        db: PathBuf::from("a.db"),
        path: PathBuf::from("/"),
    };
    let mut catalog = Catalog::new();
    let report = multi_machine_dedup::index(&options, &mut catalog, &vec![file("/a", b"content x")]);
    assert_eq!(report.files_added, 1);
}
