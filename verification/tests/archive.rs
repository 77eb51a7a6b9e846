use rime_user_dict_sync::archive::{
    entry_name, entry_time, safe_local, unpack_target, unpacked_time, ARCHIVE_NAME,
};
use rime_user_dict_sync::error::SyncError;

#[test]
fn unpack_rejects_traversal_paths() {
    assert!(safe_local("../evil").is_err());
    assert!(safe_local("/abs").is_err());
    assert!(safe_local("ok/file").is_ok());
}

#[test]
fn archive_entry_leads_through_its_names() {
    assert_eq!(safe_local("ok/file").unwrap(), vec!["ok", "file"]);
    assert_eq!(safe_local("a//b/./c/").unwrap(), vec!["a", "b", "c"]);
    assert_eq!(safe_local("").unwrap(), Vec::<String>::new());
    assert_eq!(safe_local("a/../b"), Err(SyncError::ArchivePath("a/../b".to_owned())));
    assert_eq!(safe_local("./a"), Err(SyncError::ArchivePath("./a".to_owned())));
    for entry in ["a\\b/../c", "c:/../d", "x/y\\z/.."] {
        assert_eq!(safe_local(entry), Err(SyncError::ArchivePath(entry.to_owned())));
    }
    assert_eq!(SyncError::ArchivePath("../evil".to_owned()).message(), "压缩包包含非法路径: ../evil");
}

#[test]
fn folder_entries_are_skipped() {
    assert_eq!(unpack_target("nested/", true), Ok(None));
    assert_eq!(
        unpack_target("nested/inner.txt", false),
        Ok(Some(vec!["nested".to_owned(), "inner.txt".to_owned()]))
    );
    assert!(unpack_target("../evil", false).is_err());
}

#[test]
fn packed_file_is_unpacked_in_place() {
    assert_eq!(ARCHIVE_NAME, "webdav-sync.zip");
    assert_eq!(entry_name("nested\\inner.txt"), "nested/inner.txt");
    assert_eq!(entry_name("nested/inner.txt"), "nested/inner.txt");
    assert_eq!(
        safe_local(&entry_name("nested\\deep\\inner.txt")).unwrap(),
        vec!["nested", "deep", "inner.txt"]
    );
}

#[test]
fn packed_file_keeps_its_time() {
    assert_eq!(entry_time(1_700_000_000), Some((0x576e, 0xb1aa)));
    for seconds in [315_532_800, 1_700_000_000, 1_700_000_001, 4_354_819_199] {
        let (date, time) = entry_time(seconds).unwrap();
        assert_eq!(unpacked_time(date, time), Some(seconds - seconds % 2));
    }
    for seconds in [i64::MIN, 0, 315_532_799, 4_354_819_200, i64::MAX] {
        assert_eq!(entry_time(seconds), None);
    }
    assert_eq!(unpacked_time(0, 0), None);
}
