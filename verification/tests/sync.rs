use rime_user_dict_sync::config::{Settings, SyncFile, SyncFileMode};
use rime_user_dict_sync::error::SyncError;
use rime_user_dict_sync::run::{run, Outcome, Step, Task};
use rime_user_dict_sync::sync::{
    check, check_files, check_sync_root, choose_dictionaries, in_dictionary_folder, read_device, read_id, remove_default_gram_unless_selected, required,
    sync_newest_file, timestamped, NewestAction, Reporter,
};
use std::sync::Mutex;

fn file(path: &str, mode: SyncFileMode, writeback: bool) -> SyncFile {
    SyncFile { path: path.to_owned(), mode, writeback }
}

/// Carries a run out: `remote` files are listed, the device folder holds the files of
/// `present`, and the task at `fail` fails or, at `stop`, a stop is asked for.
fn carry_out(
    files: Vec<SyncFile>,
    remote: usize,
    present: &[bool],
    fail: Option<usize>,
    stop: Option<usize>,
) -> (Vec<Task>, Result<(), SyncError>) {
    carry_out_with(files, (&[], &[]), remote, present, fail, stop)
}

fn texts(all: &[&str]) -> Vec<String> {
    all.iter().map(|text| (*text).to_owned()).collect()
}

/// Carries a run out as above; `dictionaries` holds the files of the dictionary folders
/// of the user folder, and those of the mirror and of the device folder.
fn carry_out_with(
    files: Vec<SyncFile>,
    dictionaries: (&[&str], &[&str]),
    remote: usize,
    present: &[bool],
    fail: Option<usize>,
    stop: Option<usize>,
) -> (Vec<Task>, Result<(), SyncError>) {
    let mut tasks = Vec::new();
    let mut step = run("my-pc".to_owned(), files, texts(dictionaries.0));
    loop {
        let (state, task) = match step {
            Step::Do(state, task) => (state, task),
            Step::Finished => return (tasks, Ok(())),
            Step::Failed(e) => return (tasks, Err(e)),
        };
        let outcome = match task {
            Task::ListRemote => Outcome::Done(remote),
            Task::WriteBack(i) => Outcome::Done(usize::from(present[i])),
            Task::ListDictionaries => Outcome::Found(texts(dictionaries.1)),
            _ => Outcome::Done(0),
        };
        let at = tasks.len();
        tasks.push(task);
        let outcome = if fail == Some(at) {
            Outcome::Failed(SyncError::Reported("broken".to_owned()))
        } else {
            outcome
        };
        step = state.next(outcome, stop == Some(at));
    }
}

fn log(text: &str) -> Task {
    Task::Log(text.to_owned())
}

fn two_files() -> Vec<SyncFile> {
    vec![
        file("default.custom.yaml", SyncFileMode::Newest, true),
        file("no-writeback.yaml", SyncFileMode::Newest, false),
    ]
}

#[test]
fn gram_is_removed_from_generated_sync_data_by_default() {
    assert!(remove_default_gram_unless_selected(&Vec::new()));
    let (tasks, _) = carry_out(Vec::new(), 1, &[], None, None);
    assert_eq!(tasks[1..3], [Task::RunSync, Task::DropGram]);
}

#[test]
fn selected_gram_is_kept() {
    let files = vec![file("Wanxiang-LTS-zh-hans.gram", SyncFileMode::Newest, false)];
    assert!(!remove_default_gram_unless_selected(&files));
    let (tasks, _) = carry_out(files, 1, &[true], None, None);
    assert!(!tasks.contains(&Task::DropGram));
    assert!(remove_default_gram_unless_selected(&vec![file(
        "sub/wanxiang-lts-zh-hans.gram",
        SyncFileMode::Newest,
        false
    )]));
}

#[test]
fn selected_file_is_written_back_to_its_source_path() {
    let (tasks, _) = carry_out(two_files(), 1, &[true, false], None, None);
    let written: Vec<&Task> =
        tasks.iter().filter(|task| matches!(task, Task::WriteBack(_))).collect();
    assert_eq!(written, vec![&Task::WriteBack(0)]);
    assert!(tasks.contains(&log("步骤 5/7：已回写 1 个自选文件。")));
}

#[test]
fn newest_file_wins_and_keeps_its_modification_time() {
    let old_time = 1_700_000_000 * 1_000_000_000;
    let new_time = 1_800_000_000 * 1_000_000_000;
    assert_eq!(sync_newest_file(Some(old_time), Some(new_time)), NewestAction::CopySecond);
    assert_eq!(sync_newest_file(Some(new_time), Some(old_time)), NewestAction::CopyFirst);
    assert_eq!(sync_newest_file(Some(new_time), Some(new_time)), NewestAction::Nothing);
}

#[test]
fn missing_copy_is_replaced() {
    assert_eq!(sync_newest_file(None, None), NewestAction::Nothing);
    assert_eq!(sync_newest_file(None, Some(i128::MIN)), NewestAction::CopySecond);
    assert_eq!(sync_newest_file(Some(0), None), NewestAction::CopyFirst);
}

#[test]
fn run_follows_the_script() {
    let (tasks, end) = carry_out(two_files(), 2, &[false, false], None, None);
    assert_eq!(end, Ok(()));
    assert_eq!(
        tasks,
        vec![
            log("步骤 1/7：第 1 次运行 RIME 用户资料同步。"),
            Task::RunSync,
            Task::DropGram,
            Task::Progress(15),
            Task::Collect(0),
            Task::Collect(1),
            log("步骤 1/7：RIME 自带同步数据已生成，并复制 2 个自选文件到 Sync/my-pc。"),
            Task::Progress(25),
            Task::ListRemote,
            Task::ResetMirror,
            log("步骤 2/7：下载 WebDAV 文件: 2 个。"),
            Task::Download(0),
            Task::Download(1),
            Task::MarkMirror,
            log("步骤 3/7：已确认本地文件夹与同步文件夹位于同一 Sync 根目录。"),
            Task::Progress(45),
            log("步骤 4/7：第 2 次运行 RIME 用户资料同步。"),
            Task::RunSync,
            Task::DropGram,
            Task::Progress(65),
            Task::ListDictionaries,
            Task::Combine(0),
            Task::Combine(1),
            Task::MarkMirror,
            log("步骤 5/7：已按设置同步 2 个自选文件。"),
            Task::WriteBack(0),
            log("步骤 5/7：已回写 0 个自选文件。"),
            log("步骤 5/7：开始重新部署 RIME。"),
            Task::RunDeploy,
            Task::Progress(80),
            log("步骤 6/7：覆盖上传本地文件夹全部内容到 WebDAV。"),
            Task::Upload,
            Task::Progress(95),
            log("步骤 7/7：上传完成，清空本地文件夹和同步文件夹（保留目录）。"),
            Task::ClearMirror,
            Task::ClearDevice,
            Task::Progress(100),
            log("全部同步步骤已完成。"),
        ]
    );
}

#[test]
fn dictionaries_are_collected_and_merged_without_a_selection() {
    let path = "cn_dicts/8105.dict.yaml";
    let (tasks, end) = carry_out_with(Vec::new(), (&[path], &[path, path]), 0, &[], None, None);
    assert_eq!(end, Ok(()));
    let at = |wanted: &Task| {
        (0..tasks.len()).filter(|i| tasks[*i] == *wanted).collect::<Vec<usize>>()
    };
    let syncs = at(&Task::RunSync);
    let collected = at(&Task::CollectDictionary(path.to_owned()));
    let merged = at(&Task::MergeDictionary(path.to_owned()));
    assert_eq!((collected.len(), merged.len()), (1, 1));
    assert!(syncs[0] < collected[0] && collected[0] < at(&Task::SeedMirror)[0]);
    assert!(syncs[1] < merged[0] && merged[0] < at(&Task::RunDeploy)[0]);
    assert!(merged[0] < *at(&Task::MarkMirror).last().unwrap());
    assert!(at(&Task::MarkMirror).last() < at(&Task::Upload).last());
}

#[test]
fn dictionaries_of_either_side_are_merged() {
    let found = ["en_dicts/a/b.dict.yaml", "cn_dicts\\x.txt", "en_dicts/a/b.dict.yaml"];
    let (tasks, _) = carry_out_with(Vec::new(), (&[], &found), 1, &[], None, None);
    let at = tasks.iter().position(|task| *task == Task::ListDictionaries).unwrap();
    assert_eq!(
        tasks[at + 1..at + 4],
        [
            Task::MergeDictionary("en_dicts/a/b.dict.yaml".to_owned()),
            Task::MergeDictionary("cn_dicts/x.txt".to_owned()),
            Task::MarkMirror,
        ]
    );
}

#[test]
fn selected_dictionary_goes_by_its_own_mode() {
    for path in ["cn_dicts/8105.dict.yaml", "CN_dicts/8105.Dict.yaml", "cn_dicts//./8105.dict.yaml"] {
        let files = vec![file(path, SyncFileMode::Newest, false)];
        let dictionary: &[&str] = &["cn_dicts/8105.dict.yaml"];
        let (tasks, _) = carry_out_with(files, (dictionary, dictionary), 1, &[true], None, None);
        assert!(tasks.contains(&Task::Collect(0)) && tasks.contains(&Task::Combine(0)));
        assert!(!tasks.iter().any(|task| {
            matches!(task, Task::CollectDictionary(_) | Task::MergeDictionary(_))
        }));
    }
}

#[test]
fn dictionaries_lie_in_their_folders() {
    assert!(in_dictionary_folder("cn_dicts/8105.dict.yaml"));
    assert!(in_dictionary_folder("en_dicts/sub/en.dict.yaml"));
    assert!(!in_dictionary_folder("cn_dicts"));
    assert!(!in_dictionary_folder("cn_dicts/"));
    assert!(!in_dictionary_folder("cn_dicts/../x"));
    assert!(!in_dictionary_folder("other/cn_dicts/x"));
    let found = texts(&["cn_dicts/a", "x", "en_dicts\\b", "cn_dicts/a", "cn_dicts/c"]);
    let files = vec![file("cn_dicts/C", SyncFileMode::Union, true)];
    assert_eq!(choose_dictionaries(&found, &files), texts(&["cn_dicts/a", "en_dicts/b"]));
}

#[test]
fn sync_folder_of_rime_is_checked() {
    assert_eq!(check_sync_root("/app/Sync", "/app/Sync"), Ok(()));
    assert_eq!(check_sync_root("/other/Sync", "/app/Sync"), Err(SyncError::SyncRoot));
}

#[test]
fn empty_shared_folder_is_seeded() {
    let (tasks, end) = carry_out(Vec::new(), 0, &[], None, None);
    assert_eq!(end, Ok(()));
    let at = tasks.iter().position(|task| *task == Task::ResetMirror).unwrap();
    assert_eq!(
        tasks[at + 1..at + 5],
        [
            log("步骤 2/7：WebDAV 远端为空，使用当前同步数据初始化。"),
            Task::SeedMirror,
            Task::MarkMirror,
            Task::Upload,
        ]
    );
}

#[test]
fn folders_are_emptied_only_after_the_upload() {
    let (tasks, _) = carry_out(two_files(), 2, &[true, true], None, None);
    let upload = tasks.iter().rposition(|task| *task == Task::Upload).unwrap();
    for at in 0..=upload {
        if !is_report(&tasks[at]) {
            let (done, end) = carry_out(two_files(), 2, &[true, true], Some(at), None);
            assert_eq!(end, Err(SyncError::Reported("broken".to_owned())));
            assert_eq!(done.len(), at + 1);
            assert!(!done.contains(&Task::ClearMirror) && !done.contains(&Task::ClearDevice));
        }
        let (done, end) = carry_out(two_files(), 2, &[true, true], None, Some(at));
        assert_eq!(end, Err(SyncError::Stopped));
        assert!(!done.contains(&Task::ClearMirror) && !done.contains(&Task::ClearDevice));
    }
    let last = tasks.len() - 1;
    assert_eq!(carry_out(two_files(), 2, &[true, true], None, Some(last)).1, Ok(()));
}

fn is_report(task: &Task) -> bool {
    matches!(task, Task::Log(_) | Task::Progress(_))
}

fn shown(tasks: &[Task]) -> Vec<u8> {
    tasks
        .iter()
        .filter_map(|task| match task {
            Task::Progress(value) => Some(*value),
            _ => None,
        })
        .collect()
}

#[test]
fn progress_never_falls() {
    for remote in [0, 3] {
        let (tasks, _) = carry_out(two_files(), remote, &[true, true], None, None);
        assert_eq!(shown(&tasks), vec![15, 25, 45, 65, 80, 95, 100]);
    }
}

#[test]
fn a_hundred_is_shown_only_for_a_success() {
    let whole = [15, 25, 45, 65, 80, 95, 100];
    let (tasks, _) = carry_out(two_files(), 2, &[true, true], None, None);
    for at in 0..tasks.len() {
        for (broken, stopped) in [(Some(at), None), (None, Some(at))] {
            let (done, end) = carry_out(two_files(), 2, &[true, true], broken, stopped);
            let values = shown(&done);
            assert_eq!(values, whole[..values.len()]);
            assert_eq!(end.is_ok(), values.len() == whole.len());
        }
    }
    let emptied = tasks.iter().position(|task| *task == Task::ClearDevice).unwrap();
    assert_eq!(carry_out(two_files(), 2, &[true, true], None, Some(emptied)).1, Ok(()));
    assert_eq!(
        carry_out(two_files(), 2, &[true, true], None, Some(emptied - 1)).1,
        Err(SyncError::Stopped)
    );
}

#[test]
fn commands_come_in_order() {
    let (tasks, _) = carry_out(two_files(), 2, &[true, true], None, None);
    let at = |wanted: Task| {
        (0..tasks.len()).filter(|i| tasks[*i] == wanted).collect::<Vec<usize>>()
    };
    let (syncs, deploys) = (at(Task::RunSync), at(Task::RunDeploy));
    assert_eq!((syncs.len(), deploys.len()), (2, 1));
    assert!(syncs[0] < at(Task::Download(0))[0] && at(Task::Download(1))[0] < syncs[1]);
    assert!(syncs[1] < at(Task::Combine(0))[0] && at(Task::WriteBack(0))[0] < deploys[0]);
    let (done, end) = carry_out(two_files(), 2, &[true, true], Some(syncs[0]), None);
    assert_eq!(end, Err(SyncError::Reported("broken".to_owned())));
    assert_eq!(done, tasks[..=syncs[0]]);
}

struct Notes {
    lines: Mutex<Vec<String>>,
}

impl Reporter for Notes {
    fn log(&self, text: &str) {
        self.lines.lock().unwrap().push(text.to_owned());
    }
    fn progress(&self, value: u8) {
        self.lines.lock().unwrap().push(format!("{value}%"));
    }
}

#[test]
fn reporter_is_told_lines_and_progress() {
    let notes = Notes { lines: Mutex::new(Vec::new()) };
    for task in carry_out(Vec::new(), 1, &[], None, None).0 {
        match task {
            Task::Log(text) => notes.log(&text),
            Task::Progress(value) => notes.progress(value),
            _ => {}
        }
    }
    let lines = notes.lines.lock().unwrap();
    assert_eq!(lines.first().unwrap(), "步骤 1/7：第 1 次运行 RIME 用户资料同步。");
    assert_eq!(lines[lines.len() - 2..], ["100%", "全部同步步骤已完成。"]);
}

#[test]
fn nothing_is_told_of_the_password() {
    let told = |password: &str| {
        let text = format!("[webdav]\npassword={password}\n[sync_files]\nfile=a.yaml/union/Y\n");
        let settings = Settings::load(&text).ok().unwrap();
        assert_eq!(settings.password, password);
        let installation = "installation_id: my-pc\nsync_dir: /x\n";
        let device = read_device(Some(installation), &settings.sync_files).ok().unwrap();
        carry_out(device.files, 1, &[true], None, None).0
    };
    assert_eq!(told("open"), told("sesame"));
}

#[test]
fn log_lines_carry_the_time() {
    assert_eq!(timestamped(1_787_093_279, "步骤"), "20260818224759 步骤");
    assert_eq!(timestamped(0, ""), "19700101000000 ");
    assert_eq!(timestamped(-62_167_219_200, "x"), "00000101000000 x");
    assert_eq!(timestamped(253_402_300_799, "x"), "99991231235959 x");
}

#[test]
fn settings_are_required_and_stops_are_told() {
    assert_eq!(required("x", "WebDAV 地址"), Ok(()));
    assert_eq!(required(" ", "WebDAV 地址").unwrap_err().message(), "WebDAV 地址不能为空");
    assert_eq!(check(false), Ok(()));
    assert_eq!(check(true).unwrap_err().message(), "用户已停止同步");
}

#[test]
fn device_is_read() {
    let text = "installation_id: 'pc'\nsync_dir: '/data/Sync'\n";
    let files = vec![file("a\\b.yaml", SyncFileMode::Union, true)];
    let device = read_device(Some(text), &files).ok().unwrap();
    assert_eq!(device.id, "pc");
    assert_eq!(device.sync_dir, "/data/Sync");
    assert_eq!(device.files, vec![file("a/b.yaml", SyncFileMode::Union, true)]);
    assert_eq!(read_id(text).unwrap(), "pc");
}

#[test]
fn first_fault_of_a_device_is_told() {
    let bad = vec![
        file("ok", SyncFileMode::Union, true),
        file("../x", SyncFileMode::Union, true),
        file("a;b", SyncFileMode::Union, true),
    ];
    let failed = |text: Option<&str>, files: &Vec<SyncFile>| read_device(text, files).err().unwrap();
    assert_eq!(failed(None, &bad), SyncError::InstallationMissing);
    assert_eq!(failed(Some("x: 1"), &bad), SyncError::MissingKey("installation_id".to_owned()));
    assert_eq!(
        failed(Some("installation_id: WEBDAV"), &bad),
        SyncError::InstallationId("WEBDAV".to_owned())
    );
    assert_eq!(failed(Some("installation_id: pc"), &bad), SyncError::SyncFileDots("../x".to_owned()));
    assert_eq!(
        failed(Some("installation_id: pc"), &Vec::new()),
        SyncError::MissingKey("sync_dir".to_owned())
    );
    assert_eq!(check_files(&bad), Err(SyncError::SyncFileDots("../x".to_owned())));
    assert_eq!(
        SyncError::InstallationMissing.message(),
        "找不到 installation.yaml，请先指定 RIME 用户词库"
    );
    assert_eq!(
        SyncError::SyncRoot.message(),
        "RIME 同步目录配置不正确，请重新指定 RIME 用户词库"
    );
}
