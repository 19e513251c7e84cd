use multi_machine_dedup::catalog::{Catalog, ContentId, InsertOutcome, StoreError};
use multi_machine_dedup::engine::{settle, EngineReply, PRIMARY_KEY_TAKEN};

#[test]
fn written_row_is_inserted() {
    assert_eq!(settle(EngineReply::Done), Ok(InsertOutcome::Inserted));
}

#[test]
fn taken_primary_key_is_a_conflict() {
    assert_eq!(PRIMARY_KEY_TAKEN, 1555);
    assert_eq!(
        settle(EngineReply::Refused { extended_code: 1555 }),
        Ok(InsertOutcome::AlreadyExists)
    );
}

#[test]
fn any_other_refusal_is_fatal() {
    for code in [0, 1, 5, 13, 19, 275, 787, 1299, 1554, 1556, 2067, -1, i32::MAX, i32::MIN] {
        assert_eq!(
            settle(EngineReply::Refused { extended_code: code }),
            Err(StoreError::EngineFailure)
        );
    }
}

#[test]
fn failure_without_a_code_is_fatal() {
    assert_eq!(settle(EngineReply::Failed), Err(StoreError::EngineFailure));
}

#[test]
fn key_of_an_identity_puts_the_checksum_above_the_size() {
    assert_eq!(ContentId { hash: 0, size: 0 }.key(), 0);
    assert_eq!(ContentId { hash: 0, size: 7 }.key(), 7);
    assert_eq!(ContentId { hash: 1, size: 0 }.key(), 1u128 << 64);
    assert_eq!(
        ContentId { hash: 0xdead_beef, size: 0x0123_4567_89ab_cdef }.key(),
        0xdead_beef_0123_4567_89ab_cdef_u128
    );
    assert_eq!(
        ContentId { hash: u32::MAX, size: u64::MAX }.key(),
        0xffff_ffff_ffff_ffff_ffff_ffff_u128
    );
}

#[test]
fn records_since_a_count_are_the_newer_ones() {
    let mut catalog = Catalog::new();
    catalog.insert_content(1, 1, "a".to_string());
    catalog.insert_file("alpha".to_string(), "/1".to_string(), 1, 1).unwrap();
    let contents = catalog.content_count();
    let files = catalog.file_count();
    catalog.insert_content(1, 1, "again".to_string());
    catalog.insert_content(2, 2, "b".to_string());
    catalog.insert_content(3, 3, "c".to_string());
    catalog.insert_file("alpha".to_string(), "/1".to_string(), 2, 2).unwrap();
    catalog.insert_file("beta".to_string(), "/2".to_string(), 2, 2).unwrap();

    let newer = catalog.contents_since(contents);
    assert_eq!(newer.len(), 2);
    assert_eq!((newer[0].hash, newer[0].size, newer[0].mime.as_str()), (2, 2, "b"));
    assert_eq!((newer[1].hash, newer[1].size, newer[1].mime.as_str()), (3, 3, "c"));
    let newer = catalog.files_since(files);
    assert_eq!(newer.len(), 1);
    assert_eq!(newer[0].host, "beta");
    assert_eq!(newer[0].full_path, "/2");
    assert_eq!((newer[0].hash, newer[0].size), (2, 2));

    assert_eq!(catalog.contents_since(0).len(), 3);
    assert_eq!(catalog.files_since(0).len(), 2);
    assert!(catalog.contents_since(3).is_empty());
    assert!(catalog.contents_since(4).is_empty());
    assert!(catalog.files_since(2).is_empty());
    assert!(catalog.files_since(usize::MAX).is_empty());
}

#[test]
fn many_rows_stay_unique() {
    let mut catalog = Catalog::new();
    for round in 0..3 {
        for n in 0..200u32 {
            let outcome = catalog.insert_content(n, (n % 7) as u64, format!("mime{}", round));
            let expected =
                if round == 0 { InsertOutcome::Inserted } else { InsertOutcome::AlreadyExists };
            assert_eq!(outcome, expected);
            let host = format!("host{}", n % 3);
            let path = format!("/file{}", n / 3);
            let outcome = catalog.insert_file(host.clone(), path.clone(), n, (n % 7) as u64);
            assert_eq!(outcome, Ok(expected));
            assert!(catalog.has_file(&host, &path));
            assert!(!catalog.has_file(&path, &host));
        }
    }
    assert_eq!(catalog.content_count(), 200);
    assert_eq!(catalog.file_count(), 200);
    assert_eq!(catalog.list_files(&"host0".to_string()).len(), 67);
    assert_eq!(catalog.list_files(&"host1".to_string()).len(), 67);
    assert_eq!(catalog.list_files(&"host2".to_string()).len(), 66);
    assert_eq!(catalog.list_content()[5].mime, "mime0");
}
