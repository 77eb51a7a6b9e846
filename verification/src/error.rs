//! What can go wrong, and how the user is told.
use vstd::prelude::*;

use crate::text::{has_at, has_text, pair, triple};

verus! {

/// A failure, with the texts that its message quotes.
#[derive(Debug, PartialEq, Eq)]
pub enum SyncError {
    /// An installation id that cannot name a folder.
    InstallationId(String),
    /// `installation.yaml` has no line for the key.
    MissingKey(String),
    /// `installation.yaml` gives the key no value.
    EmptyKey(String),
    /// No search pattern can be made for a key; how the pattern's error reads.
    KeyPattern(String),
    /// The stored password is not Base64.
    PasswordBase64,
    /// The stored password is not UTF-8; how the decoder's error reads.
    PasswordUtf8(String),
    /// A dictionary holds a zero byte.
    BinaryDictionary(String),
    /// A dictionary is not UTF-8.
    DictionaryUtf8(String),
    /// A dictionary's header has no end.
    HeaderEnd,
    /// An archive entry lies outside the target folder.
    ArchivePath(String),
    /// A remote file lies outside the target folder.
    RemotePath,
    /// A selected file's path is blank, absolute or holds a semicolon.
    SyncFilePath(String),
    /// A selected file's path has no part.
    SyncFileEmpty,
    /// A selected file's path has a part that is no name.
    SyncFileDots(String),
    /// A setting that may not be blank.
    Required(String),
    /// The user stopped the run.
    Stopped,
    /// There is no `installation.yaml`.
    InstallationMissing,
    /// RIME's sync folder is not this program's.
    SyncRoot,
    /// The configured address is no URL.
    WebdavUrl,
    /// A reference does not resolve against the configured address; how the parser's error
    /// reads.
    RemoteUrl(String),
    /// The server's listing is not XML.
    WebdavXml,
    /// The server refused the credentials.
    Unauthorized(String),
    /// The server refused a request.
    Http(String, String),
    /// The test file came back changed.
    ProbeMismatch,
    /// Weasel's deployer was not found.
    WeaselMissing,
    /// Squirrel was not found.
    SquirrelMissing(String),
    /// No deployer is configured.
    DeployerMissing,
    /// The platform has no known front end.
    Platform,
    /// The front end failed; the exit code as text.
    RimeExit(String),
    /// The configuration folder is not an absolute path.
    ConfigDirRelative,
    /// The new configuration folder lies inside the old one.
    ConfigDirNested,
    /// The program still points at the old configuration folder.
    ConfigDirStale,
    /// A failure of the outside world, as it was reported.
    Reported(String),
}

/// What a [`SyncError`] says, with its texts as character sequences.
pub enum Fault {
    InstallationId(Seq<char>),
    MissingKey(Seq<char>),
    EmptyKey(Seq<char>),
    KeyPattern(Seq<char>),
    PasswordBase64,
    PasswordUtf8(Seq<char>),
    BinaryDictionary(Seq<char>),
    DictionaryUtf8(Seq<char>),
    HeaderEnd,
    ArchivePath(Seq<char>),
    RemotePath,
    SyncFilePath(Seq<char>),
    SyncFileEmpty,
    SyncFileDots(Seq<char>),
    Required(Seq<char>),
    Stopped,
    InstallationMissing,
    SyncRoot,
    WebdavUrl,
    RemoteUrl(Seq<char>),
    WebdavXml,
    Unauthorized(Seq<char>),
    Http(Seq<char>, Seq<char>),
    ProbeMismatch,
    WeaselMissing,
    SquirrelMissing(Seq<char>),
    DeployerMissing,
    Platform,
    RimeExit(Seq<char>),
    ConfigDirRelative,
    ConfigDirNested,
    ConfigDirStale,
    Reported(Seq<char>),
}

impl View for SyncError {
    type V = Fault;

    open spec fn view(&self) -> Fault {
        match self {
            SyncError::InstallationId(value) => Fault::InstallationId(value@),
            SyncError::MissingKey(key) => Fault::MissingKey(key@),
            SyncError::EmptyKey(key) => Fault::EmptyKey(key@),
            SyncError::KeyPattern(text) => Fault::KeyPattern(text@),
            SyncError::PasswordBase64 => Fault::PasswordBase64,
            SyncError::PasswordUtf8(text) => Fault::PasswordUtf8(text@),
            SyncError::BinaryDictionary(name) => Fault::BinaryDictionary(name@),
            SyncError::DictionaryUtf8(name) => Fault::DictionaryUtf8(name@),
            SyncError::HeaderEnd => Fault::HeaderEnd,
            SyncError::ArchivePath(entry) => Fault::ArchivePath(entry@),
            SyncError::RemotePath => Fault::RemotePath,
            SyncError::SyncFilePath(value) => Fault::SyncFilePath(value@),
            SyncError::SyncFileEmpty => Fault::SyncFileEmpty,
            SyncError::SyncFileDots(value) => Fault::SyncFileDots(value@),
            SyncError::Required(name) => Fault::Required(name@),
            SyncError::Stopped => Fault::Stopped,
            SyncError::InstallationMissing => Fault::InstallationMissing,
            SyncError::SyncRoot => Fault::SyncRoot,
            SyncError::WebdavUrl => Fault::WebdavUrl,
            SyncError::RemoteUrl(text) => Fault::RemoteUrl(text@),
            SyncError::WebdavXml => Fault::WebdavXml,
            SyncError::Unauthorized(action) => Fault::Unauthorized(action@),
            SyncError::Http(action, status) => Fault::Http(action@, status@),
            SyncError::ProbeMismatch => Fault::ProbeMismatch,
            SyncError::WeaselMissing => Fault::WeaselMissing,
            SyncError::SquirrelMissing(path) => Fault::SquirrelMissing(path@),
            SyncError::DeployerMissing => Fault::DeployerMissing,
            SyncError::Platform => Fault::Platform,
            SyncError::RimeExit(code) => Fault::RimeExit(code@),
            SyncError::ConfigDirRelative => Fault::ConfigDirRelative,
            SyncError::ConfigDirNested => Fault::ConfigDirNested,
            SyncError::ConfigDirStale => Fault::ConfigDirStale,
            SyncError::Reported(text) => Fault::Reported(text@),
        }
    }
}

/// The message that a user reads for a failure.
pub open spec fn fault_message(fault: Fault) -> Seq<char> {
    match fault {
        Fault::InstallationId(value) => "installation_id 不能安全地用作同步文件夹名称: "@ + value,
        Fault::MissingKey(key) => "installation.yaml 缺少 "@ + key,
        Fault::EmptyKey(key) => "installation.yaml 的 "@ + key + " 为空"@,
        Fault::KeyPattern(text) => text,
        Fault::PasswordBase64 => "WebDAV 密码 Base64 无效"@,
        Fault::PasswordUtf8(text) => text,
        Fault::BinaryDictionary(name) => "词库目录含二进制文件: "@ + name,
        Fault::DictionaryUtf8(name) => "词库文件不是 UTF-8: "@ + name,
        Fault::HeaderEnd => "词库文件头以 --- 开始但缺少 ..."@,
        Fault::ArchivePath(entry) => "压缩包包含非法路径: "@ + entry,
        Fault::RemotePath => "WebDAV 返回越界路径"@,
        Fault::SyncFilePath(value) => "同步文件路径无效: "@ + value,
        Fault::SyncFileEmpty => "同步文件路径为空"@,
        Fault::SyncFileDots(value) => "同步文件路径不能包含 . 或 ..: "@ + value,
        Fault::Required(name) => name + "不能为空"@,
        Fault::Stopped => "用户已停止同步"@,
        Fault::InstallationMissing => "找不到 installation.yaml，请先指定 RIME 用户词库"@,
        Fault::SyncRoot => "RIME 同步目录配置不正确，请重新指定 RIME 用户词库"@,
        Fault::WebdavUrl => "WebDAV 地址无效"@,
        Fault::RemoteUrl(text) => text,
        Fault::WebdavXml => "解析 WebDAV XML 失败"@,
        Fault::Unauthorized(action) => action + "失败: HTTP 401 Unauthorized（请核对用户名大小写和密码，并确认该账号拥有 WebDAV 目录权限）"@,
        Fault::Http(action, status) => action + "失败: HTTP "@ + status,
        Fault::ProbeMismatch => "WebDAV 测试文件内容不一致"@,
        Fault::WeaselMissing => "找不到 WeaselDeployer.exe，请在配置中指定路径"@,
        Fault::SquirrelMissing(path) => "找不到鼠须管 Squirrel: "@ + path,
        Fault::DeployerMissing => "Linux 需要在配置中指定可执行的 RIME 部署工具；不同前端的命令并不统一"@,
        Fault::Platform => "不支持当前平台"@,
        Fault::RimeExit(code) => "RIME 命令执行失败，退出码 "@ + code,
        Fault::ConfigDirRelative => "配置目录必须是绝对路径"@,
        Fault::ConfigDirNested => "配置目录不能放在当前配置目录的子目录中"@,
        Fault::ConfigDirStale => "配置目录保存后校验失败，程序仍指向旧目录"@,
        Fault::Reported(text) => text,
    }
}

impl SyncError {
    /// The message that a user reads.
    pub fn message(&self) -> (res: String)
        ensures
            res@ == fault_message(self@),
    {
        match self {
            SyncError::InstallationId(value) => pair("installation_id 不能安全地用作同步文件夹名称: ", value.as_str()),
            SyncError::MissingKey(key) => pair("installation.yaml 缺少 ", key.as_str()),
            SyncError::EmptyKey(key) => triple("installation.yaml 的 ", key.as_str(), " 为空"),
            SyncError::KeyPattern(text) => text.as_str().to_owned(),
            SyncError::PasswordBase64 => "WebDAV 密码 Base64 无效".to_owned(),
            SyncError::PasswordUtf8(text) => text.as_str().to_owned(),
            SyncError::BinaryDictionary(name) => pair("词库目录含二进制文件: ", name.as_str()),
            SyncError::DictionaryUtf8(name) => pair("词库文件不是 UTF-8: ", name.as_str()),
            SyncError::HeaderEnd => "词库文件头以 --- 开始但缺少 ...".to_owned(),
            SyncError::ArchivePath(entry) => pair("压缩包包含非法路径: ", entry.as_str()),
            SyncError::RemotePath => "WebDAV 返回越界路径".to_owned(),
            SyncError::SyncFilePath(value) => pair("同步文件路径无效: ", value.as_str()),
            SyncError::SyncFileEmpty => "同步文件路径为空".to_owned(),
            SyncError::SyncFileDots(value) => pair("同步文件路径不能包含 . 或 ..: ", value.as_str()),
            SyncError::Required(name) => pair(name.as_str(), "不能为空"),
            SyncError::Stopped => "用户已停止同步".to_owned(),
            SyncError::InstallationMissing => "找不到 installation.yaml，请先指定 RIME 用户词库".to_owned(),
            SyncError::SyncRoot => "RIME 同步目录配置不正确，请重新指定 RIME 用户词库".to_owned(),
            SyncError::WebdavUrl => "WebDAV 地址无效".to_owned(),
            SyncError::RemoteUrl(text) => text.as_str().to_owned(),
            SyncError::WebdavXml => "解析 WebDAV XML 失败".to_owned(),
            SyncError::Unauthorized(action) => pair(action.as_str(), "失败: HTTP 401 Unauthorized（请核对用户名大小写和密码，并确认该账号拥有 WebDAV 目录权限）"),
            SyncError::Http(action, status) => triple(action.as_str(), "失败: HTTP ", status.as_str()),
            SyncError::ProbeMismatch => "WebDAV 测试文件内容不一致".to_owned(),
            SyncError::WeaselMissing => "找不到 WeaselDeployer.exe，请在配置中指定路径".to_owned(),
            SyncError::SquirrelMissing(path) => pair("找不到鼠须管 Squirrel: ", path.as_str()),
            SyncError::DeployerMissing => "Linux 需要在配置中指定可执行的 RIME 部署工具；不同前端的命令并不统一".to_owned(),
            SyncError::Platform => "不支持当前平台".to_owned(),
            SyncError::RimeExit(code) => pair("RIME 命令执行失败，退出码 ", code.as_str()),
            SyncError::ConfigDirRelative => "配置目录必须是绝对路径".to_owned(),
            SyncError::ConfigDirNested => "配置目录不能放在当前配置目录的子目录中".to_owned(),
            SyncError::ConfigDirStale => "配置目录保存后校验失败，程序仍指向旧目录".to_owned(),
            SyncError::Reported(text) => text.clone(),
        }
    }
}

/// What a function that returns a text or fails has returned.
pub open spec fn outcome(res: Result<String, SyncError>) -> Result<Seq<char>, Fault> {
    match res {
        Ok(text) => Ok(text@),
        Err(e) => Err(e@),
    }
}

/// What a function that checks something has returned.
pub open spec fn failure(res: Result<(), SyncError>) -> Option<Fault> {
    match res {
        Ok(_) => None,
        Err(e) => Some(e@),
    }
}

/// What is told of a failure holds what it is about.
pub proof fn law_messages_tell_what_failed(text: Seq<char>, more: Seq<char>)
    ensures
        has_text(fault_message(Fault::InstallationId(text)), text),
        has_text(fault_message(Fault::MissingKey(text)), text),
        has_text(fault_message(Fault::EmptyKey(text)), text),
        has_text(fault_message(Fault::BinaryDictionary(text)), text),
        has_text(fault_message(Fault::DictionaryUtf8(text)), text),
        has_text(fault_message(Fault::ArchivePath(text)), text),
        has_text(fault_message(Fault::SyncFilePath(text)), text),
        has_text(fault_message(Fault::SyncFileDots(text)), text),
        has_text(fault_message(Fault::Required(text)), text),
        has_text(fault_message(Fault::Unauthorized(text)), text),
        has_text(fault_message(Fault::Http(text, more)), text),
        has_text(fault_message(Fault::Http(text, more)), more),
        has_text(fault_message(Fault::SquirrelMissing(text)), text),
        has_text(fault_message(Fault::RimeExit(text)), text),
        fault_message(Fault::Reported(text)) == text,
        fault_message(Fault::KeyPattern(text)) == text,
        fault_message(Fault::PasswordUtf8(text)) == text,
        fault_message(Fault::RemoteUrl(text)) == text,
{
    let none = Seq::<char>::empty();
    lemma_text_inside("installation_id 不能安全地用作同步文件夹名称: "@, text, none);
    lemma_text_inside("installation.yaml 缺少 "@, text, none);
    lemma_text_inside("installation.yaml 的 "@, text, " 为空"@);
    lemma_text_inside("词库目录含二进制文件: "@, text, none);
    lemma_text_inside("词库文件不是 UTF-8: "@, text, none);
    lemma_text_inside("压缩包包含非法路径: "@, text, none);
    lemma_text_inside("同步文件路径无效: "@, text, none);
    lemma_text_inside("同步文件路径不能包含 . 或 ..: "@, text, none);
    lemma_text_inside(none, text, "不能为空"@);
    lemma_text_inside(
        none,
        text,
        "失败: HTTP 401 Unauthorized（请核对用户名大小写和密码，并确认该账号拥有 WebDAV 目录权限）"@,
    );
    lemma_text_inside(none, text, "失败: HTTP "@ + more);
    assert(none + text + ("失败: HTTP "@ + more) =~= text + "失败: HTTP "@ + more);
    lemma_text_inside(text + "失败: HTTP "@, more, none);
    lemma_text_inside("找不到鼠须管 Squirrel: "@, text, none);
    lemma_text_inside("RIME 命令执行失败，退出码 "@, text, none);
}

proof fn lemma_text_inside(before: Seq<char>, text: Seq<char>, after: Seq<char>)
    ensures
        has_text(before + text + after, text),
        after.len() == 0 ==> has_text(before + text, text),
        before.len() == 0 ==> has_text(text + after, text),
{
    let n = before.len() as int;
    assert((before + text + after).subrange(n, n + text.len()) =~= text);
    assert(has_at(before + text + after, n, text));
    assert(after.len() == 0 ==> before + text + after =~= before + text);
    assert(before.len() == 0 ==> before + text + after =~= text + after);
}

} // verus!
