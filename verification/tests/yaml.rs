use rime_user_dict_sync::error::SyncError;
use rime_user_dict_sync::yaml::{
    ensure_webdav_installation, is_key_shaped, read_scalar, set_yaml_scalar, value_parts,
    yaml_scalar,
};

#[test]
fn scalars_are_found_and_unquoted() {
    let text = "distribution: x\r\n  installation_id : 'my pc' # note\r\nsync_dir: \"C:\\Sync\"  \r\nplain: a#b\n";
    assert_eq!(yaml_scalar(text, "installation_id").unwrap(), "my pc");
    assert_eq!(yaml_scalar(text, "sync_dir").unwrap(), "C:\\Sync");
    assert_eq!(yaml_scalar(text, "plain").unwrap(), "a#b");
    assert_eq!(yaml_scalar(text, "distribution").unwrap(), "x");
}

#[test]
fn missing_and_empty_scalars_fail() {
    assert_eq!(yaml_scalar("a: b\n", "c"), Err(SyncError::MissingKey("c".to_owned())));
    assert_eq!(yaml_scalar("c: ''\n", "c"), Err(SyncError::EmptyKey("c".to_owned())));
    assert_eq!(yaml_scalar("c:", "c"), Err(SyncError::EmptyKey("c".to_owned())));
    assert_eq!(yaml_scalar("ac: b\n", "c"), Err(SyncError::MissingKey("c".to_owned())));
    assert_eq!(SyncError::MissingKey("c".to_owned()).message(), "installation.yaml 缺少 c");
    assert_eq!(SyncError::EmptyKey("c".to_owned()).message(), "installation.yaml 的 c 为空");
}

#[test]
fn value_stands_after_its_colon() {
    assert_eq!(yaml_scalar("c\n : e\n", "c").unwrap(), "e");
    assert_eq!(yaml_scalar("\n \n\tc \t:\u{a0}e\n", "c").unwrap(), "e");
    assert_eq!(yaml_scalar("c: \r\n\r\n  e # f\r\nd: 1\r\n", "c").unwrap(), "e");
    assert_eq!(yaml_scalar("c:\n  'a: b' # f\n", "c").unwrap(), "a: b");
    assert_eq!(yaml_scalar("c:\n  C:\\Rime\\Sync\n", "c").unwrap(), "C:\\Rime\\Sync");
    assert_eq!(yaml_scalar("c:\n\t/app/Sync", "c").unwrap(), "/app/Sync");
}

#[test]
fn next_key_is_no_value() {
    for text in ["c:\n  d: e\n", "c:\r\nd: e\r\n", "c:\n  d:e\n", "c:\n  d\n  : e\n", "c:\ne\n", "c:\n \n"] {
        assert_eq!(yaml_scalar(text, "c"), Err(SyncError::EmptyKey("c".to_owned())), "{text:?}");
    }
    for line in ["d: e", "d:", "d:e", "d :e", "a b: c", "'d': e", "\"d\": 'e'", "C:x", "C:\\a: b"] {
        assert!(is_key_shaped(line), "{line:?}");
    }
    for line in ["", "e", "'d: e'", "\"d: e\"  # f", "'d'': e'", "C:\\x", "c:/x", "a b:c", ":x"] {
        assert!(!is_key_shaped(line), "{line:?}");
    }
}

#[test]
fn rest_of_a_text_is_parted() {
    let parts = |rest: &str| {
        let (front, value, tail) = value_parts(rest);
        format!("{front}|{value}|{tail}")
    };
    assert_eq!(parts(" x # y\nz"), " |x # y|\nz");
    assert_eq!(parts("x"), "|x|");
    assert_eq!(parts(""), " ||");
    assert_eq!(parts("\nd: 1\n"), " ||\nd: 1\n");
    assert_eq!(parts("\n  x\nd: 1\n"), "\n  |x|\nd: 1\n");
}

#[test]
fn key_characters_are_taken_literally() {
    assert_eq!(yaml_scalar("axb: 1\na.b: 2\n", "a.b").unwrap(), "2");
    assert_eq!(yaml_scalar("a+(b)[c]{d}|^$#&-~?*\\: 3\n", "a+(b)[c]{d}|^$#&-~?*\\").unwrap(), "3");
}

#[test]
fn thousand_character_key_has_a_pattern() {
    let key = "键".repeat(1000);
    let text = format!("{key}: v\n");
    assert_eq!(yaml_scalar(&text, &key).unwrap(), "v");
    assert_eq!(set_yaml_scalar(&text, &key, "w").unwrap(), format!("{key}: 'w'\n"));
}

#[test]
fn endless_key_has_no_pattern() {
    let key = "键".repeat(2_000_000);
    let text = "Compiled regex exceeds size limit of 10485760 bytes.".to_owned();
    assert_eq!(yaml_scalar("a: b\n", &key).unwrap_err().message(), text);
    assert_eq!(set_yaml_scalar("a: b\n", &key, "v"), Err(SyncError::KeyPattern(text)));
}

#[test]
fn raw_values_are_read() {
    let read = |raw: &str| read_scalar(Some(raw.to_owned()), "k");
    assert_eq!(read(" 'a' "), Ok("a".to_owned()));
    assert_eq!(read("'"), Ok("'".to_owned()));
    assert_eq!(read("'a\""), Ok("'a\"".to_owned()));
    assert_eq!(read("a # b"), Ok("a".to_owned()));
    assert_eq!(read("''"), Err(SyncError::EmptyKey("k".to_owned())));
    assert_eq!(read_scalar(None, "k"), Err(SyncError::MissingKey("k".to_owned())));
}

#[test]
fn set_value_replaces_or_appends() {
    assert_eq!(set_yaml_scalar("a: 1\nb: 2\nc: 3\n", "b", "x").unwrap(), "a: 1\nb: 'x'\nc: 3\n");
    assert_eq!(set_yaml_scalar("a: 1\n\n", "b", "it's").unwrap(), "a: 1\nb: 'it''s'\n");
    assert_eq!(set_yaml_scalar("", "b", "x").unwrap(), "\nb: 'x'\n");
    assert_eq!(set_yaml_scalar("  b :   x # y\nc: 1\n", "b", "z").unwrap(), "  b :   'z'\nc: 1\n");
}

#[test]
fn empty_value_is_set_on_its_own_line() {
    assert_eq!(
        set_yaml_scalar("sync_dir:\ninstallation_id: pc\n", "sync_dir", "/app/Sync").unwrap(),
        "sync_dir: '/app/Sync'\ninstallation_id: pc\n"
    );
    assert_eq!(set_yaml_scalar("b: \nc: 1\n", "b", "x").unwrap(), "b: 'x'\nc: 1\n");
    assert_eq!(set_yaml_scalar("b:\r\nc: 1\r\n", "b", "x").unwrap(), "b: 'x'\nc: 1\r\n");
    assert_eq!(set_yaml_scalar("b:", "b", "x").unwrap(), "b: 'x'");
    assert_eq!(
        ensure_webdav_installation("installation_id:\nsync_dir: y\n"),
        "installation_id: WebDAV\nsync_dir: y\n"
    );
}

#[test]
fn value_on_the_next_line_is_set_there() {
    assert_eq!(
        set_yaml_scalar("sync_dir:\n  /old\ninstallation_id: pc\n", "sync_dir", "/new").unwrap(),
        "sync_dir:\n  '/new'\ninstallation_id: pc\n"
    );
    assert_eq!(set_yaml_scalar("b\n: x\n", "b", "y").unwrap(), "b\n: 'y'\n");
    assert_eq!(
        ensure_webdav_installation("installation_id:\n  pc\nsync_dir: y\n"),
        "installation_id:\n  WebDAV\nsync_dir: y\n"
    );
}

#[test]
fn set_value_is_read_back() {
    for text in ["", "a: 1", "b: 1\r\nc: 2\n", "b:\n", "  b : x # y\n", "a\nb: 1", "b:\n  x\n", "b\n: x"] {
        for value in ["/Users/我/Library/Application Support/Sync", "C:\\Sync", "a$b", "${1}", "$$$", "x"] {
            let new = set_yaml_scalar(text, "b", value).unwrap();
            assert_eq!(yaml_scalar(&new, "b").unwrap(), value, "{text:?} {value:?}");
            assert_eq!(set_yaml_scalar(&new, "b", value).unwrap(), new);
        }
    }
}

#[test]
fn dollar_signs_are_taken_literally() {
    assert_eq!(
        set_yaml_scalar("installation_id: pc\nsync_dir: old\n", "sync_dir", "/a$b/Sync").unwrap(),
        "installation_id: pc\nsync_dir: '/a$b/Sync'\n"
    );
    for value in ["$x", "$1", "${1}", "$$", "$", "a$$$b"] {
        assert_eq!(set_yaml_scalar("b: 1\n", "b", value).unwrap(), format!("b: '{value}'\n"));
        assert_eq!(set_yaml_scalar("a: 1\n", "b", value).unwrap(), format!("a: 1\nb: '{value}'\n"));
    }
}

#[test]
fn setting_one_key_keeps_another() {
    for text in ["installation_id:\n  pc\nsync_dir:\n  a\n", "sync_dir:\n  a\ninstallation_id:\n  pc\n", "installation_id: pc\nsync_dir: a\n", "sync_dir: a\r\ninstallation_id: pc\r\n", "installation_id: pc  \n\n"] {
        let new = set_yaml_scalar(text, "sync_dir", "/new/Sync").unwrap();
        assert_eq!(yaml_scalar(&new, "installation_id").unwrap(), "pc");
        assert_eq!(yaml_scalar(&new, "sync_dir").unwrap(), "/new/Sync");
    }
    for text in ["sync_dir:\ninstallation_id: x", "installation_id: x\nsync_dir:", "installation_id : x\nsync_dir:\r\n\r\n"] {
        let new = set_yaml_scalar(text, "sync_dir", "a").unwrap();
        assert_eq!(yaml_scalar(&new, "installation_id").unwrap(), "x");
        assert_eq!(yaml_scalar(&new, "sync_dir").unwrap(), "a");
    }
    let empty = set_yaml_scalar("installation_id:\n", "sync_dir", "a").unwrap();
    assert!(yaml_scalar(&empty, "installation_id").is_err());
}

#[test]
fn shared_folder_is_called_webdav() {
    assert_eq!(ensure_webdav_installation(""), "installation_id: WebDAV\n");
    assert_eq!(
        ensure_webdav_installation("a: 1\n installation_id : pc # x\nb: 2\n"),
        "a: 1\n installation_id : WebDAV\nb: 2\n"
    );
    for text in ["", "installation_id:\n", "installation_id:\n  pc", "x", "installation_id: 'a'\ninstallation_id: b\n"] {
        let new = ensure_webdav_installation(text);
        assert_eq!(yaml_scalar(&new, "installation_id").unwrap(), "WebDAV");
        assert_eq!(ensure_webdav_installation(&new), new);
    }
}
