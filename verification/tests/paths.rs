use rime_user_dict_sync::error::SyncError;
use rime_user_dict_sync::paths::{
    check_sync_file_path, names_below, part_names, validate_sync_file_path, PathPart,
};

fn name(text: &str) -> PathPart {
    PathPart::Normal(text.to_owned())
}

#[test]
fn names_are_taken_only_if_all_parts_are_names() {
    assert_eq!(part_names(&vec![name("a"), name("b")]).unwrap(), vec!["a", "b"]);
    assert_eq!(part_names(&vec![name("a"), PathPart::ParentDir]), None);
    assert_eq!(part_names(&vec![PathPart::RootDir]), None);
    assert_eq!(part_names(&vec![PathPart::Prefix, name("a")]), None);
    assert_eq!(part_names(&Vec::new()), Some(Vec::new()));
}

#[test]
fn portable_paths_are_split_at_slashes() {
    assert_eq!(names_below("a/b"), Some(vec!["a".to_owned(), "b".to_owned()]));
    assert_eq!(names_below("a/./b//c/."), Some(vec!["a".to_owned(), "b".to_owned(), "c".to_owned()]));
    assert_eq!(names_below("..."), Some(vec!["...".to_owned()]));
    for path in [".", "./a", "..", "a/..", "a/../b", "/", "/a", "//a"] {
        assert_eq!(names_below(path), None, "{path}");
    }
}

#[test]
fn backslashes_and_drives_are_read_as_the_platform_does() {
    let unix = std::path::MAIN_SEPARATOR == '/';
    let list = |names: &[&str]| Some(names.iter().map(|name| name.to_string()).collect::<Vec<_>>());
    assert_eq!(names_below("a\\b/c"), if unix { list(&["a\\b", "c"]) } else { list(&["a", "b", "c"]) });
    assert_eq!(names_below("c:d"), if unix { list(&["c:d"]) } else { None });
    assert_eq!(names_below("\\a"), if unix { list(&["\\a"]) } else { None });
    assert_eq!(names_below("a\\b/../c"), None);
}

#[test]
fn selected_paths_are_checked() {
    assert_eq!(validate_sync_file_path("a.yaml").unwrap(), "a.yaml");
    assert_eq!(validate_sync_file_path("dir\\a.yaml").unwrap(), "dir/a.yaml");
    assert_eq!(validate_sync_file_path("a//b").unwrap(), "a//b");
    for value in ["", "  ", "a;b"] {
        assert_eq!(
            validate_sync_file_path(value),
            Err(SyncError::SyncFilePath(value.to_owned()))
        );
    }
    for value in [".", "./a", "../a", "a/../b", "a\\..\\b"] {
        assert_eq!(
            validate_sync_file_path(value),
            Err(SyncError::SyncFileDots(value.to_owned()))
        );
    }
    assert!(validate_sync_file_path("/etc/passwd").is_err());
    assert!(validate_sync_file_path("\\a").is_err());
    assert!(validate_sync_file_path("c:/../a").is_err());
    assert!(validate_sync_file_path("c:\\a\\..\\b").is_err());
}

#[test]
fn selected_path_is_decided_by_its_parts() {
    assert_eq!(check_sync_file_path("x", false, &Vec::new()), Err(SyncError::SyncFileEmpty));
    assert_eq!(
        check_sync_file_path("x", true, &vec![name("x")]),
        Err(SyncError::SyncFilePath("x".to_owned()))
    );
    assert_eq!(
        check_sync_file_path("x", false, &vec![name("x"), PathPart::RootDir]),
        Err(SyncError::SyncFileDots("x".to_owned()))
    );
    assert_eq!(check_sync_file_path("x\\y", false, &vec![name("x"), name("y")]), Ok("x/y".to_owned()));
    assert_eq!(SyncError::SyncFileEmpty.message(), "同步文件路径为空");
    assert_eq!(SyncError::SyncFilePath("a;b".to_owned()).message(), "同步文件路径无效: a;b");
    assert_eq!(
        SyncError::SyncFileDots("..".to_owned()).message(),
        "同步文件路径不能包含 . 或 ..: .."
    );
}
