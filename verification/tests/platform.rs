use rime_user_dict_sync::error::SyncError;
use rime_user_dict_sync::platform::{
    candidates, default_user_dir, find_rime, run, set_fonts, Exit, Platform, Watch,
};

fn texts(list: &[&str]) -> Vec<String> {
    list.iter().map(|text| (*text).to_owned()).collect()
}

#[test]
fn user_folder_of_each_platform() {
    let registered = vec![None, Some("  ".to_owned()), Some("D:\\Rime".to_owned())];
    let folder = default_user_dir(Platform::Windows, &registered, Some("C:\\App".to_owned()));
    assert_eq!((folder.base.as_str(), folder.below), ("D:\\Rime", ""));
    let folder = default_user_dir(Platform::Windows, &Vec::new(), Some("C:\\App".to_owned()));
    assert_eq!((folder.base.as_str(), folder.below), ("C:\\App", "Rime"));
    let folder = default_user_dir(Platform::Macos, &Vec::new(), Some("/Users/u".to_owned()));
    assert_eq!((folder.base.as_str(), folder.below), ("/Users/u", "Library/Rime"));
    let folder = default_user_dir(Platform::Linux, &Vec::new(), None);
    assert_eq!((folder.base.as_str(), folder.below), ("", ".local/share/fcitx5/rime"));
    let folder = default_user_dir(Platform::Other, &Vec::new(), Some("/h".to_owned()));
    assert_eq!((folder.base.as_str(), folder.below), ("", ""));
}

#[test]
fn front_end_is_looked_for_in_order() {
    let installed = vec![texts(&["r1"]), texts(&["r2", "r3"])];
    assert_eq!(
        candidates(Platform::Windows, "set", "beside", &installed),
        vec!["set", "beside", "r1", "r2", "r3"]
    );
    assert_eq!(
        candidates(Platform::Windows, " ", "beside", &installed),
        vec!["beside", "r1", "r2", "r3"]
    );
    assert_eq!(
        candidates(Platform::Macos, "", "beside", &installed),
        vec!["/Library/Input Methods/Squirrel.app/Contents/MacOS/Squirrel"]
    );
    assert_eq!(candidates(Platform::Macos, "set", "beside", &installed), vec!["set"]);
    assert_eq!(candidates(Platform::Linux, "set", "beside", &installed), vec!["set"]);
    assert!(candidates(Platform::Other, "set", "beside", &installed).is_empty());
}

#[test]
fn first_present_front_end_is_used() {
    let installed = vec![texts(&["r1"])];
    let command =
        find_rime(Platform::Windows, "set", "beside", &installed, &vec![false, false, true]).ok().unwrap();
    assert_eq!(command.executable, "r1");
    assert_eq!((command.sync_arg, command.deploy_arg), ("/sync", "/deploy"));
    let command = find_rime(Platform::Macos, "", "", &Vec::new(), &vec![true]).ok().unwrap();
    assert_eq!((command.sync_arg, command.deploy_arg), ("--sync", "--reload"));
    let command = find_rime(Platform::Linux, "tool", "", &Vec::new(), &vec![true]).ok().unwrap();
    assert_eq!(command.executable, "tool");
    assert_eq!((command.sync_arg, command.deploy_arg), ("--sync", "--deploy"));
}

#[test]
fn missing_front_end_is_told() {
    let failed = |platform| find_rime(platform, "set", "b", &Vec::new(), &vec![false, false]).err().unwrap();
    assert_eq!(failed(Platform::Windows), SyncError::WeaselMissing);
    assert_eq!(failed(Platform::Macos), SyncError::SquirrelMissing("set".to_owned()));
    assert_eq!(failed(Platform::Linux), SyncError::DeployerMissing);
    assert_eq!(failed(Platform::Other), SyncError::Platform);
    assert_eq!(
        SyncError::WeaselMissing.message(),
        "找不到 WeaselDeployer.exe，请在配置中指定路径"
    );
    assert_eq!(
        SyncError::SquirrelMissing("set".to_owned()).message(),
        "找不到鼠须管 Squirrel: set"
    );
    assert_eq!(
        SyncError::DeployerMissing.message(),
        "Linux 需要在配置中指定可执行的 RIME 部署工具；不同前端的命令并不统一"
    );
    assert_eq!(SyncError::Platform.message(), "不支持当前平台");
}

#[test]
fn started_program_is_watched() {
    assert!(matches!(run(false, None), Watch::Wait));
    assert!(matches!(run(false, Some(Exit { success: true, code: Some(0) })), Watch::Done));
    assert!(matches!(run(true, None), Watch::Kill(SyncError::Stopped)));
    assert!(matches!(
        run(true, Some(Exit { success: true, code: Some(0) })),
        Watch::Kill(SyncError::Stopped)
    ));
    for (code, text) in [
        (Some(3), "RIME 命令执行失败，退出码 Some(3)"),
        (Some(-1), "RIME 命令执行失败，退出码 Some(-1)"),
        (Some(i32::MIN), "RIME 命令执行失败，退出码 Some(-2147483648)"),
        (None, "RIME 命令执行失败，退出码 None"),
    ] {
        match run(false, Some(Exit { success: false, code })) {
            Watch::Failed(e) => assert_eq!(e.message(), text),
            _ => panic!("the failure is not told"),
        }
    }
}

#[test]
fn fonts_of_each_platform() {
    assert_eq!(
        set_fonts(Platform::Windows),
        vec![r"C:\Windows\Fonts\msyh.ttc", r"C:\Windows\Fonts\simhei.ttf"]
    );
    assert_eq!(set_fonts(Platform::Macos).len(), 4);
    assert_eq!(
        set_fonts(Platform::Linux),
        vec!["/usr/share/fonts/opentype/noto/NotoSansCJK-Regular.ttc"]
    );
}
