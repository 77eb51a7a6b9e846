use rime_user_dict_sync::config::{
    join_sync_file_entries, or_else_nonempty, parse_ini, parse_legacy_file_list,
    parse_legacy_sync_files, parse_sync_file_entries, read_password, validate_installation_id,
    Settings, SyncFile, SyncFileMode,
};
use rime_user_dict_sync::error::SyncError;

fn file(path: &str, mode: SyncFileMode, writeback: bool) -> SyncFile {
    SyncFile { path: path.to_owned(), mode, writeback }
}

#[test]
fn sync_files_round_trip_as_semicolon_lists() {
    let settings = Settings {
        sync_files: vec![
            SyncFile {
                path: "custom/a.dict.yaml".into(),
                mode: SyncFileMode::Union,
                writeback: true,
            },
            SyncFile {
                path: "wanxiang-lts-zh-hans.gram".into(),
                mode: SyncFileMode::Newest,
                writeback: false,
            },
        ],
        ..Default::default()
    };

    let text = settings.save();
    assert!(text.contains("file=custom/a.dict.yaml/union/Y;wanxiang-lts-zh-hans.gram/newest/N"));
    assert_eq!(Settings::load(&text).ok().unwrap().sync_files, settings.sync_files);
}

#[test]
fn saved_settings_have_their_layout() {
    let settings = Settings {
        user_data_dir: "/home/u/rime".to_owned(),
        deployer_path: "/bin/deploy".to_owned(),
        webdav_url: "https://dav.example.com/rime-sync/".to_owned(),
        username: "user".to_owned(),
        password: "秘密".to_owned(),
        sync_files: vec![file("a.yaml", SyncFileMode::Newest, true)],
    };
    assert_eq!(
        settings.save(),
        "[rime]\nuser_data_dir=/home/u/rime\ndeployer_path=/bin/deploy\n\n[webdav]\n\
         url=https://dav.example.com/rime-sync/\nusername=user\npassword_base64=56eY5a+G\n\n\
         [sync_files]\nfile=a.yaml/newest/Y\n"
    );
    let back = Settings::load(&settings.save()).ok().unwrap();
    assert_eq!(back.user_data_dir, settings.user_data_dir);
    assert_eq!(back.deployer_path, settings.deployer_path);
    assert_eq!(back.webdav_url, settings.webdav_url);
    assert_eq!(back.username, settings.username);
    assert_eq!(back.password, "秘密");
    assert_eq!(back.sync_files, settings.sync_files);
}

#[test]
fn empty_settings_round_trip() {
    let back = Settings::load(&Settings::default().save()).ok().unwrap();
    assert_eq!(back.user_data_dir, "");
    assert_eq!(back.password, "");
    assert!(back.sync_files.is_empty());
}

#[test]
fn passwords_of_either_form_are_read() {
    let plain = Settings::load("[webdav]\npassword=open\n").ok().unwrap();
    assert_eq!(plain.password, "open");
    let encoded = Settings::load("[webdav]\npassword=open\npassword_base64=c2VjcmV0\n").ok().unwrap();
    assert_eq!(encoded.password, "secret");
    assert_eq!(
        Settings::load("[webdav]\npassword_base64=***\n").err(),
        Some(SyncError::PasswordBase64)
    );
    assert_eq!(
        Settings::load("[webdav]\npassword_base64=//79\n").err(),
        Some(SyncError::PasswordUtf8("invalid utf-8 sequence of 1 bytes from index 0".to_owned()))
    );
}

#[test]
fn decoded_passwords_are_read() {
    assert_eq!(read_password(Some(b"secret".to_vec())), Ok("secret".to_owned()));
    assert_eq!(
        read_password(Some(vec![b'a', 0xff])).unwrap_err().message(),
        "invalid utf-8 sequence of 1 bytes from index 1"
    );
    assert_eq!(read_password(None), Err(SyncError::PasswordBase64));
    assert_eq!(SyncError::PasswordBase64.message(), "WebDAV 密码 Base64 无效");
}

#[test]
fn older_section_names_are_read() {
    let text = "[Weasel]\nUser_Data_Dir = C:\\Rime \n[rime]\ndeployer_path=x\n[weasel]\ndeployer_path=y\n";
    let settings = Settings::load(text).ok().unwrap();
    assert_eq!(settings.user_data_dir, "C:\\Rime");
    assert_eq!(settings.deployer_path, "x");
    assert_eq!(or_else_nonempty(String::new(), "b".to_owned()), "b");
    assert_eq!(or_else_nonempty("a".to_owned(), "b".to_owned()), "a");
}

#[test]
fn ini_comments_and_repeats() {
    let ini = parse_ini("; note\n# note\nkey=outside\n[ S ]\nKey = first \nkey=second\nno value\n=empty\n");
    assert_eq!(ini.get("", "key"), "outside");
    assert_eq!(ini.get("s", "key"), "second");
    assert_eq!(ini.get("s", ""), "empty");
    assert_eq!(ini.get("s", "missing"), "");
}

#[test]
fn file_entries_are_read_leniently() {
    assert_eq!(
        parse_sync_file_entries(" a/union/n ; b/newest/anything;c;/union/Y;;d/union/x/newest/N"),
        vec![
            file("a", SyncFileMode::Union, false),
            file("b", SyncFileMode::Newest, true),
            file("d", SyncFileMode::Union, true),
        ]
    );
    assert_eq!(
        join_sync_file_entries(&vec![
            file("a", SyncFileMode::Union, false),
            file("b", SyncFileMode::Newest, true),
        ]),
        "a/union/N;b/newest/Y"
    );
    assert_eq!(join_sync_file_entries(&Vec::new()), "");
}

#[test]
fn older_file_lists_prefer_the_newest_mode() {
    assert_eq!(
        parse_legacy_file_list(" a ;; b ", SyncFileMode::Union),
        vec![file("a", SyncFileMode::Union, false), file("b", SyncFileMode::Union, false)]
    );
    assert_eq!(
        parse_legacy_sync_files("a;B;c", "b;d"),
        vec![
            file("a", SyncFileMode::Union, false),
            file("c", SyncFileMode::Union, false),
            file("b", SyncFileMode::Newest, false),
            file("d", SyncFileMode::Newest, false),
        ]
    );
    let settings = Settings::load("[sync_files]\nunion=a\nnewest=b\n").ok().unwrap();
    assert_eq!(
        settings.sync_files,
        vec![file("a", SyncFileMode::Union, false), file("b", SyncFileMode::Newest, false)]
    );
}

#[test]
fn unsafe_installation_ids_are_refused() {
    for id in ["", "  ", ".", "..", "WebDAV", "webdav", "a/b", "a\\b"] {
        assert_eq!(
            validate_installation_id(id),
            Err(SyncError::InstallationId(id.to_owned()))
        );
    }
    for id in ["my-pc", "...", "WebDAV2", "电脑"] {
        assert_eq!(validate_installation_id(id), Ok(()));
    }
    assert_eq!(
        SyncError::InstallationId("a/b".to_owned()).message(),
        "installation_id 不能安全地用作同步文件夹名称: a/b"
    );
}

#[test]
fn path_with_a_mode_inside_does_not_round_trip() {
    let files = vec![file("a/union/b", SyncFileMode::Newest, true)];
    assert_ne!(parse_sync_file_entries(&join_sync_file_entries(&files)), files);
}
