use rime_user_dict_sync::config::{Settings, SyncFile, SyncFileMode};
use rime_user_dict_sync::error::SyncError;
use rime_user_dict_sync::setup::{
    adopts_old_settings, app_dir, check_app_dir, choose_rime, configured_dir, confirm_config_dir,
    save_config_dir, set_app_dir, user_dir, MoveTask,
};
use rime_user_dict_sync::ui::{App, Click, Effect, Event};
use rime_user_dict_sync::yaml::yaml_scalar;

fn app() -> App {
    App::new("/base".to_owned(), Settings::default(), "old\n".to_owned())
}

fn paths(app: &App) -> Vec<&str> {
    app.files.iter().map(|file| file.path.as_str()).collect()
}

fn picks(list: &[&str]) -> Vec<Option<String>> {
    list.iter().map(|path| Some((*path).to_owned())).collect()
}

#[test]
fn events_change_the_window() {
    let mut app = app();
    assert_eq!(app.poll(Event::Log("line".to_owned()), 0), Some("line".to_owned()));
    assert_eq!(app.logs, "old\nline\n");
    assert_eq!(app.poll(Event::Progress(45), 0), None);
    assert_eq!(app.progress, 45);
    app.busy = true;
    assert_eq!(app.poll(Event::Finished(Ok(())), 0), None);
    assert!(!app.busy);
    assert_eq!(app.notice.as_deref(), Some("同步完成。"));
    app.busy = true;
    let line = app.poll(Event::Finished(Err("why".to_owned())), 0);
    assert_eq!(line.as_deref(), Some("19700101000000 失败: why"));
    assert_eq!(app.logs, "old\nline\n19700101000000 失败: why\n");
    assert_eq!(app.notice.as_deref(), Some("why"));
    assert!(!app.busy);
    assert_eq!(app.poll(Event::Tested(Ok(())), 0), None);
    assert_eq!(app.notice.as_deref(), Some("连接成功，上传和下载测试均已通过。"));
    assert_eq!(app.poll(Event::Tested(Err("x".to_owned())), 0), None);
    assert_eq!(app.notice.as_deref(), Some("测试失败：x"));
}

#[test]
fn one_background_task_at_a_time() {
    let mut app = app();
    assert_eq!(app.update(Click::Stop), Effect::Nothing);
    app.progress = 9;
    assert_eq!(app.update(Click::Start), Effect::StartSync);
    assert!(app.busy);
    assert_eq!(app.progress, 0);
    for click in [Click::Start, Click::TestWebdav, Click::ChooseRime, Click::OpenWebdav, Click::OpenFiles, Click::OpenConfig] {
        assert!(!app.is_enabled(click));
        assert_eq!(app.update(click), Effect::Nothing);
    }
    assert!(!app.show_webdav);
    assert_eq!(app.update(Click::Stop), Effect::StopSync);
    app.poll(Event::Finished(Ok(())), 0);
    assert_eq!(app.update(Click::TestWebdav), Effect::TestConnection);
    assert!(app.busy);
}

#[test]
fn windows_open_and_close() {
    let mut app = app();
    app.update(Click::OpenWebdav);
    app.update(Click::OpenAbout);
    app.update(Click::OpenConfig);
    app.update(Click::ShowPassword(true));
    assert!(app.show_webdav && app.show_about && app.show_config && app.password_visible);
    assert_eq!(app.config_draft, "/base");
    app.update(Click::CloseWebdav);
    app.update(Click::CloseAbout);
    app.update(Click::CloseConfig);
    app.notice = Some("x".to_owned());
    app.update(Click::CloseNotice);
    assert!(!app.show_webdav && !app.show_about && !app.show_config && app.notice.is_none());
    assert_eq!(app.update(Click::ChooseRime), Effect::PickRime);
    assert_eq!(app.update(Click::SaveWebdav), Effect::SaveWebdav);
    assert_eq!(app.update(Click::AddFiles), Effect::PickFiles);
    assert_eq!(app.update(Click::PickConfig), Effect::PickConfig);
    assert_eq!(app.update(Click::ShowConfig), Effect::ShowConfig);
    assert_eq!(app.update(Click::SaveConfig), Effect::SaveConfig);
}

#[test]
fn picked_files_are_distinct() {
    let mut app = app();
    app.choose_sync_files(&picks(&["a\\b", "c", "a/b"]));
    assert_eq!(paths(&app), vec!["a/b", "c"]);
    assert_eq!(app.marked, vec![false, false]);
    assert!(app.notice.is_none());
    assert!(app.files.iter().all(|file| file.mode == SyncFileMode::Newest && file.writeback));
    app.choose_sync_files(&picks(&["x;y", "d"]));
    assert_eq!(app.notice.as_deref(), Some("同步文件名不能为空，也不能包含分号。"));
    app.choose_sync_files(&picks(&[""]));
    assert_eq!(paths(&app), vec!["a/b", "c", "d"]);
    app.choose_sync_files(&vec![None]);
    assert_eq!(app.notice.as_deref(), Some("同步文件必须位于当前 RIME 用户词库目录内。"));
}

#[test]
fn draft_is_edited_and_saved() {
    let mut app = app();
    app.choose_sync_files(&picks(&["a", "b", "c"]));
    assert!(!app.is_enabled(Click::BulkMode(SyncFileMode::Union)));
    app.update(Click::Select(0, true));
    app.update(Click::Select(2, true));
    app.update(Click::BulkMode(SyncFileMode::Union));
    app.update(Click::BulkWriteback(false));
    let kept: Vec<(SyncFileMode, bool)> =
        app.files.iter().map(|file| (file.mode, file.writeback)).collect();
    assert_eq!(
        kept,
        vec![
            (SyncFileMode::Union, false),
            (SyncFileMode::Newest, true),
            (SyncFileMode::Union, false),
        ]
    );
    app.update(Click::SetMode(0, SyncFileMode::Newest));
    app.update(Click::SetWriteback(2, true));
    app.update(Click::Remove(1));
    assert_eq!(app.update(Click::Remove(7)), Effect::Nothing);
    assert_eq!(paths(&app), vec!["a", "c"]);
    assert_eq!(app.marked, vec![true, true]);
    app.update(Click::SelectAll(false));
    assert!(!app.has_marked());
    assert_eq!(app.update(Click::SaveFiles), Effect::SaveFiles);
    assert_eq!(
        app.settings.sync_files,
        vec![
            SyncFile { path: "a".to_owned(), mode: SyncFileMode::Newest, writeback: false },
            SyncFile { path: "c".to_owned(), mode: SyncFileMode::Union, writeback: true },
        ]
    );
    app.update(Click::ClearFiles);
    assert!(app.files.is_empty() && app.marked.is_empty());
    assert!(!app.is_enabled(Click::ClearFiles));
    app.update(Click::OpenFiles);
    assert!(app.show_files);
    assert_eq!(paths(&app), vec!["a", "c"]);
    assert_eq!(app.marked, vec![false, false]);
    app.update(Click::CloseFiles);
    assert!(!app.show_files);
}

#[test]
fn saving_is_told() {
    let mut app = app();
    app.show_webdav = true;
    app.show_files = true;
    app.show_config = true;
    assert_eq!(app.webdav_saved(Err("full".to_owned()), 0), None);
    assert!(app.show_webdav);
    assert_eq!(app.notice.as_deref(), Some("full"));
    assert_eq!(app.webdav_saved(Ok(()), 0).as_deref(), Some("19700101000000 已保存 WebDAV 设置。"));
    assert_eq!(app.files_saved(Ok(()), 0).as_deref(), Some("19700101000000 已保存同步文件选择。"));
    assert!(!app.show_webdav && !app.show_files);
    assert_eq!(
        app.rime_chosen(Ok("pc".to_owned()), 0).as_deref(),
        Some("19700101000000 已指定 RIME 用户词库，installation_id 保持为 pc，sync_dir 已指向程序目录下 Sync。")
    );
    assert_eq!(app.rime_chosen(Err("bad".to_owned()), 0), None);
    assert_eq!(app.notice.as_deref(), Some("bad"));
    assert_eq!(
        app.config_saved(Ok("/new".to_owned()), 0).as_deref(),
        Some("19700101000000 已移动并切换 macOS 配置目录：/new")
    );
    assert!(!app.show_config);
    assert_eq!(app.notice.as_deref(), Some("配置目录已移动并切换到：\n/new"));
    app.config_not_shown("no");
    assert_eq!(app.notice.as_deref(), Some("打开配置目录失败：no"));
}

#[test]
fn log_only_grows() {
    let mut app = app();
    for event in [Event::Log("a".to_owned()), Event::Progress(1), Event::Finished(Err("b".to_owned()))] {
        let before = app.logs.clone();
        app.poll(event, 0);
        assert!(app.logs.starts_with(&before));
    }
}

#[test]
fn choosing_keeps_the_id() {
    let text = "installation_id: \"pc\"\nsync_dir: 'C:\\old'\n";
    let (id, new) = choose_rime(text, "/data/Sync").unwrap();
    assert_eq!(id, "pc");
    assert_eq!(new, "installation_id: \"pc\"\nsync_dir: '/data/Sync'\n");
    assert_eq!(yaml_scalar(&new, "installation_id").unwrap(), "pc");
    assert_eq!(yaml_scalar(&new, "sync_dir").unwrap(), "/data/Sync");
    assert_eq!(
        choose_rime("installation_id: webdav\n", "/x"),
        Err(SyncError::InstallationId("webdav".to_owned()))
    );
}

#[test]
fn only_absolute_folders_count() {
    assert_eq!(configured_dir(" /a ", true), Some("/a".to_owned()));
    assert_eq!(configured_dir("a", false), None);
    assert_eq!(configured_dir("  ", true), None);
    assert_eq!(app_dir("relative/dir"), None);
    assert_eq!(app_dir(""), None);
    assert_eq!(set_app_dir("relative"), Err(SyncError::ConfigDirRelative));
    assert_eq!(check_app_dir(true), Ok(()));
    assert_eq!(set_app_dir(" /Users/u/My Data\n"), Ok("/Users/u/My Data".to_owned()));
    assert_eq!(set_app_dir("C:\\data"), Err(SyncError::ConfigDirRelative));
    assert_eq!(set_app_dir("  "), Err(SyncError::ConfigDirRelative));
    assert_eq!(app_dir(" /Users/u/My Data\n"), Some("/Users/u/My Data".to_owned()));
    assert_eq!(app_dir("~/data"), None);
    assert_eq!(app_dir("\\data"), None);
    assert_eq!(SyncError::ConfigDirRelative.message(), "配置目录必须是绝对路径");
}

#[test]
fn old_folder_is_cleared_last() {
    assert_eq!(
        save_config_dir(false, false, "/rime").unwrap(),
        vec![
            MoveTask::CopySync,
            MoveTask::CopyLog,
            MoveTask::SaveSettings,
            MoveTask::PointRime,
            MoveTask::SetAppDir,
            MoveTask::Confirm,
            MoveTask::Switch,
            MoveTask::RemoveSync,
            MoveTask::RemoveFiles,
        ]
    );
    assert_eq!(
        save_config_dir(true, true, " ").unwrap(),
        vec![MoveTask::SaveSettings, MoveTask::SetAppDir, MoveTask::Confirm, MoveTask::Switch]
    );
    assert_eq!(save_config_dir(false, true, ""), Err(SyncError::ConfigDirNested));
    assert_eq!(confirm_config_dir(true), Ok(()));
    assert_eq!(confirm_config_dir(false), Err(SyncError::ConfigDirStale));
    assert_eq!(
        SyncError::ConfigDirNested.message(),
        "配置目录不能放在当前配置目录的子目录中"
    );
    assert_eq!(
        SyncError::ConfigDirStale.message(),
        "配置目录保存后校验失败，程序仍指向旧目录"
    );
}

#[test]
fn earlier_settings_and_user_folder() {
    assert!(adopts_old_settings(false, true));
    assert!(!adopts_old_settings(true, true));
    assert!(!adopts_old_settings(false, false));
    assert_eq!(user_dir(" "), None);
    assert_eq!(user_dir(" /a"), Some(" /a".to_owned()));
}
