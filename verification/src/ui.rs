//! The state of the main window, and what clicks and events do to it.
//!
//! What a click or an event asks for beyond the window's own state is returned to the
//! caller.
use vstd::prelude::*;

use crate::config::{
    clone_files, file_views, Settings, SettingsView, SyncFile, SyncFileMode, SyncFileView,
};
use crate::sync::{stamp_text, timestamped, writable_time};
use crate::text::{
    has_char, optional_view, optional_views, pair, replace_char, replaced, same_text,
};
use crate::paths::{law_backslashes_become_slashes, slashed};

verus! {

/// What a background task tells the window.
pub enum Event {
    Log(String),
    Progress(u8),
    /// The synchronisation has ended.
    Finished(Result<(), String>),
    /// The test of the connection has ended.
    Tested(Result<(), String>),
}

/// What an [`Event`] says.
pub enum EventView {
    Log(Seq<char>),
    Progress(u8),
    Finished(Option<Seq<char>>),
    Tested(Option<Seq<char>>),
}

/// Why something failed, if it did.
pub open spec fn reason(res: Result<(), String>) -> Option<Seq<char>> {
    match res {
        Ok(_) => None,
        Err(text) => Some(text@),
    }
}

impl View for Event {
    type V = EventView;

    open spec fn view(&self) -> EventView {
        match self {
            Event::Log(text) => EventView::Log(text@),
            Event::Progress(value) => EventView::Progress(*value),
            Event::Finished(res) => EventView::Finished(reason(*res)),
            Event::Tested(res) => EventView::Tested(reason(*res)),
        }
    }
}

/// Something in the window that was clicked. A number is the index of a file in the
/// draft of the selection.
#[derive(Clone, Copy, Debug, PartialEq, Eq, Structural)]
pub enum Click {
    ChooseRime,
    OpenWebdav,
    OpenFiles,
    OpenConfig,
    OpenAbout,
    Start,
    Stop,
    ShowPassword(bool),
    TestWebdav,
    SaveWebdav,
    CloseWebdav,
    Select(usize, bool),
    SetMode(usize, SyncFileMode),
    SetWriteback(usize, bool),
    Remove(usize),
    AddFiles,
    ClearFiles,
    SaveFiles,
    CloseFiles,
    SelectAll(bool),
    BulkMode(SyncFileMode),
    BulkWriteback(bool),
    PickConfig,
    ShowConfig,
    SaveConfig,
    CloseConfig,
    CloseAbout,
    CloseNotice,
}

/// What the window asks its caller to do.
#[derive(Clone, Copy, Debug, PartialEq, Eq, Structural)]
pub enum Effect {
    Nothing,
    /// Let the user pick the RIME user folder.
    PickRime,
    /// Start the synchronisation.
    StartSync,
    /// Ask the synchronisation to stop.
    StopSync,
    /// Test the connection.
    TestConnection,
    /// Save the settings after the WebDAV window.
    SaveWebdav,
    /// Let the user pick files.
    PickFiles,
    /// Save the settings after the window with the selected files.
    SaveFiles,
    /// Let the user pick a folder for the program's files.
    PickConfig,
    /// Show the folder with the program's files.
    ShowConfig,
    /// Move the program's files.
    SaveConfig,
}

/// The state of the main window.
pub struct App {
    /// The folder with the program's files.
    pub base: String,
    pub settings: Settings,
    pub logs: String,
    pub progress: u8,
    /// A background task runs.
    pub busy: bool,
    pub show_webdav: bool,
    pub show_about: bool,
    pub show_files: bool,
    pub show_config: bool,
    /// The draft of the selection, and which of its files are marked.
    pub files: Vec<SyncFile>,
    pub marked: Vec<bool>,
    pub config_draft: String,
    pub password_visible: bool,
    pub notice: Option<String>,
}

/// What an [`App`] says.
#[verifier::ext_equal]
pub struct AppView {
    pub base: Seq<char>,
    pub settings: SettingsView,
    pub logs: Seq<char>,
    pub progress: u8,
    pub busy: bool,
    pub show_webdav: bool,
    pub show_about: bool,
    pub show_files: bool,
    pub show_config: bool,
    pub files: Seq<SyncFileView>,
    pub marked: Seq<bool>,
    pub config_draft: Seq<char>,
    pub password_visible: bool,
    pub notice: Option<Seq<char>>,
}

impl View for App {
    type V = AppView;

    open spec fn view(&self) -> AppView {
        AppView {
            base: self.base@,
            settings: self.settings@,
            logs: self.logs@,
            progress: self.progress,
            busy: self.busy,
            show_webdav: self.show_webdav,
            show_about: self.show_about,
            show_files: self.show_files,
            show_config: self.show_config,
            files: file_views(self.files@),
            marked: self.marked@,
            config_draft: self.config_draft@,
            password_visible: self.password_visible,
            notice: optional_view(self.notice),
        }
    }
}

/// Each file of the draft is marked or not.
pub open spec fn wf(app: AppView) -> bool {
    app.files.len() == app.marked.len()
}

/// The window when the program starts.
pub open spec fn opened(base: Seq<char>, settings: SettingsView, logs: Seq<char>) -> AppView {
    AppView {
        base,
        settings,
        logs,
        progress: 0,
        busy: false,
        show_webdav: false,
        show_about: false,
        show_files: false,
        show_config: false,
        files: Seq::empty(),
        marked: Seq::empty(),
        config_draft: Seq::empty(),
        password_visible: false,
        notice: None,
    }
}

/// The log with one more line.
pub open spec fn with_line(logs: Seq<char>, line: Seq<char>) -> Seq<char> {
    logs + line + "\n"@
}

/// A line of the log with its time.
pub open spec fn stamped(seconds: i64, text: Seq<char>) -> Seq<char> {
    stamp_text(seconds) + " "@ + text
}

/// The window after an event, and the line that is added to the log.
pub open spec fn applied(app: AppView, event: EventView, seconds: i64) -> (
    AppView,
    Option<Seq<char>>,
) {
    match event {
        EventView::Log(text) => (AppView { logs: with_line(app.logs, text), ..app }, Some(text)),
        EventView::Progress(value) => (AppView { progress: value, ..app }, None),
        EventView::Finished(None) => (
            AppView { busy: false, notice: Some("同步完成。"@), ..app },
            None,
        ),
        EventView::Finished(Some(why)) => {
            let line = stamped(seconds, "失败: "@ + why);
            (
                AppView {
                    busy: false,
                    notice: Some(why),
                    logs: with_line(app.logs, line),
                    ..app
                },
                Some(line),
            )
        },
        EventView::Tested(None) => (
            AppView { busy: false, notice: Some("连接成功，上传和下载测试均已通过。"@), ..app },
            None,
        ),
        EventView::Tested(Some(why)) => (
            AppView { busy: false, notice: Some("测试失败："@ + why), ..app },
            None,
        ),
    }
}

impl App {
    /// The window when the program starts.
    pub fn new(base: String, settings: Settings, logs: String) -> (res: App)
        ensures
            res@ == opened(base@, settings@, logs@),
    {
        let res = App {
            base,
            settings,
            logs,
            progress: 0,
            busy: false,
            show_webdav: false,
            show_about: false,
            show_files: false,
            show_config: false,
            files: Vec::new(),
            marked: Vec::new(),
            config_draft: String::new(),
            password_visible: false,
            notice: None,
        };
        assert(res@.files =~= Seq::<SyncFileView>::empty());
        assert(res@.marked =~= Seq::<bool>::empty());
        assert(res@.config_draft =~= Seq::<char>::empty());
        res
    }

    /// Adds a line to the log.
    pub fn append(&mut self, line: &str)
        ensures
            final(self)@ == (AppView { logs: with_line(old(self)@.logs, line@), ..old(self)@ }),
    {
        self.logs.append(line);
        self.logs.append("\n");
    }

    /// Takes an event in; `seconds` is the local time. Returns the line that was added to
    /// the log, for the log file.
    pub fn poll(&mut self, event: Event, seconds: i64) -> (res: Option<String>)
        requires
            writable_time(seconds),
        ensures
            (final(self)@, optional_view(res)) == applied(old(self)@, event@, seconds),
    {
        match event {
            Event::Log(text) => {
                self.append(text.as_str());
                Some(text)
            },
            Event::Progress(value) => {
                self.progress = value;
                None
            },
            Event::Finished(res) => {
                self.busy = false;
                match res {
                    Ok(_) => {
                        self.notice = Some("同步完成。".to_owned());
                        None
                    },
                    Err(why) => {
                        let line = timestamped(seconds, pair("失败: ", why.as_str()).as_str());
                        self.append(line.as_str());
                        self.notice = Some(why);
                        Some(line)
                    },
                }
            },
            Event::Tested(res) => {
                self.busy = false;
                self.notice = Some(
                    match res {
                        Ok(_) => "连接成功，上传和下载测试均已通过。".to_owned(),
                        Err(why) => pair("测试失败：", why.as_str()),
                    },
                );
                None
            },
        }
    }
}

/// The log only grows.
pub proof fn law_log_only_grows(app: AppView, event: EventView, seconds: i64)
    ensures
        applied(app, event, seconds).0.logs.len() >= app.logs.len(),
        applied(app, event, seconds).0.logs.take(app.logs.len() as int) == app.logs,
{
    assert(applied(app, event, seconds).0.logs.take(app.logs.len() as int) =~= app.logs);
}

/// Which of the marked files get a mode.
pub open spec fn with_mode(
    files: Seq<SyncFileView>,
    marked: Seq<bool>,
    mode: SyncFileMode,
) -> Seq<SyncFileView> {
    Seq::new(
        files.len(),
        |i: int|
            if marked[i] {
                SyncFileView { mode, ..files[i] }
            } else {
                files[i]
            },
    )
}

/// Which of the marked files are written back.
pub open spec fn with_writeback(
    files: Seq<SyncFileView>,
    marked: Seq<bool>,
    writeback: bool,
) -> Seq<SyncFileView> {
    Seq::new(
        files.len(),
        |i: int|
            if marked[i] {
                SyncFileView { writeback, ..files[i] }
            } else {
                files[i]
            },
    )
}

/// A click counts: most do not while a background task runs, a stop only then, and those
/// on marked files only if there are any.
pub open spec fn enabled(app: AppView, click: Click) -> bool {
    match click {
        Click::ChooseRime | Click::OpenWebdav | Click::OpenFiles | Click::OpenConfig
        | Click::Start | Click::TestWebdav => !app.busy,
        Click::Stop => app.busy,
        Click::ClearFiles => app.files.len() > 0,
        Click::BulkMode(_) | Click::BulkWriteback(_) => app.marked.contains(true),
        Click::Select(i, _) | Click::SetMode(i, _) | Click::SetWriteback(i, _) | Click::Remove(
            i,
        ) => i < app.files.len(),
        _ => true,
    }
}

/// The window after a click that counts, and what it asks for.
pub open spec fn clicked(app: AppView, click: Click) -> (AppView, Effect) {
    match click {
        Click::ChooseRime => (app, Effect::PickRime),
        Click::OpenWebdav => (AppView { show_webdav: true, ..app }, Effect::Nothing),
        Click::OpenFiles => (
            AppView {
                files: app.settings.sync_files,
                marked: Seq::new(app.settings.sync_files.len(), |i: int| false),
                show_files: true,
                ..app
            },
            Effect::Nothing,
        ),
        Click::OpenConfig => (
            AppView { config_draft: app.base, show_config: true, ..app },
            Effect::Nothing,
        ),
        Click::OpenAbout => (AppView { show_about: true, ..app }, Effect::Nothing),
        Click::Start => (AppView { progress: 0, busy: true, ..app }, Effect::StartSync),
        Click::Stop => (app, Effect::StopSync),
        Click::ShowPassword(on) => (AppView { password_visible: on, ..app }, Effect::Nothing),
        Click::TestWebdav => (AppView { busy: true, ..app }, Effect::TestConnection),
        Click::SaveWebdav => (app, Effect::SaveWebdav),
        Click::CloseWebdav => (AppView { show_webdav: false, ..app }, Effect::Nothing),
        Click::Select(i, on) => (
            AppView { marked: app.marked.update(i as int, on), ..app },
            Effect::Nothing,
        ),
        Click::SetMode(i, mode) => (
            AppView {
                files: app.files.update(
                    i as int,
                    SyncFileView { mode, ..app.files[i as int] },
                ),
                ..app
            },
            Effect::Nothing,
        ),
        Click::SetWriteback(i, writeback) => (
            AppView {
                files: app.files.update(
                    i as int,
                    SyncFileView { writeback, ..app.files[i as int] },
                ),
                ..app
            },
            Effect::Nothing,
        ),
        Click::Remove(i) => (
            AppView {
                files: app.files.remove(i as int),
                marked: app.marked.remove(i as int),
                ..app
            },
            Effect::Nothing,
        ),
        Click::AddFiles => (app, Effect::PickFiles),
        Click::ClearFiles => (
            AppView { files: Seq::empty(), marked: Seq::empty(), ..app },
            Effect::Nothing,
        ),
        Click::SaveFiles => (
            AppView {
                settings: SettingsView { sync_files: app.files, ..app.settings },
                ..app
            },
            Effect::SaveFiles,
        ),
        Click::CloseFiles => (AppView { show_files: false, ..app }, Effect::Nothing),
        Click::SelectAll(on) => (
            AppView { marked: Seq::new(app.marked.len(), |i: int| on), ..app },
            Effect::Nothing,
        ),
        Click::BulkMode(mode) => (
            AppView { files: with_mode(app.files, app.marked, mode), ..app },
            Effect::Nothing,
        ),
        Click::BulkWriteback(writeback) => (
            AppView { files: with_writeback(app.files, app.marked, writeback), ..app },
            Effect::Nothing,
        ),
        Click::PickConfig => (app, Effect::PickConfig),
        Click::ShowConfig => (app, Effect::ShowConfig),
        Click::SaveConfig => (app, Effect::SaveConfig),
        Click::CloseConfig => (AppView { show_config: false, ..app }, Effect::Nothing),
        Click::CloseAbout => (AppView { show_about: false, ..app }, Effect::Nothing),
        Click::CloseNotice => (AppView { notice: None, ..app }, Effect::Nothing),
    }
}

/// The click opens or closes a part of the window.
spec fn windowed(click: Click) -> bool {
    match click {
        Click::OpenWebdav | Click::OpenConfig | Click::OpenAbout | Click::ShowPassword(_)
        | Click::CloseWebdav | Click::CloseFiles | Click::CloseConfig | Click::CloseAbout
        | Click::CloseNotice => true,
        _ => false,
    }
}

/// The click is on one file of the draft.
spec fn one_file(click: Click) -> bool {
    match click {
        Click::Select(_, _) | Click::SetMode(_, _) | Click::SetWriteback(_, _) | Click::Remove(
            _,
        ) => true,
        _ => false,
    }
}

/// The click is on the draft as a whole.
spec fn whole_draft(click: Click) -> bool {
    match click {
        Click::OpenFiles | Click::ClearFiles | Click::SelectAll(_) | Click::BulkMode(_)
        | Click::BulkWriteback(_) => true,
        _ => false,
    }
}

fn repeated(on: bool, n: usize) -> (res: Vec<bool>)
    ensures
        res@ == Seq::new(n as nat, |i: int| on),
{
    let mut res: Vec<bool> = Vec::new();
    let mut i: usize = 0;
    while i < n
        invariant
            i <= n,
            res@.len() == i,
            forall|j: int| 0 <= j < i ==> res@[j] == on,
        decreases n - i,
    {
        res.push(on);
        i = i + 1;
    }
    assert(res@ =~= Seq::new(n as nat, |i: int| on));
    res
}

/// Replaces the file at `at`.
fn set_file(files: &mut Vec<SyncFile>, at: usize, mode: SyncFileMode, writeback: bool)
    requires
        at < old(files)@.len(),
    ensures
        file_views(final(files)@) == file_views(old(files)@).update(
            at as int,
            (SyncFileView { mode, writeback, ..file_views(old(files)@)[at as int] }),
        ),
{
    let ghost before = files@;
    let path = files[at].path.clone();
    let file = SyncFile { path, mode, writeback };
    let ghost shown = file@;
    files[at] = file;
    assert(file_views(files@) =~= file_views(before).update(at as int, shown));
}

impl App {
    /// Tells whether some file of the draft is marked.
    pub fn has_marked(&self) -> (res: bool)
        ensures
            res == self@.marked.contains(true),
    {
        let mut i: usize = 0;
        while i < self.marked.len()
            invariant
                i <= self.marked@.len(),
                forall|j: int| 0 <= j < i ==> self.marked@[j] == false,
            decreases self.marked@.len() - i,
        {
            if self.marked[i] {
                assert(self.marked@.contains(true));
                return true;
            }
            i = i + 1;
        }
        false
    }

    /// Tells whether a click counts.
    pub fn is_enabled(&self, click: Click) -> (res: bool)
        ensures
            res == enabled(self@, click),
    {
        match click {
            Click::ChooseRime | Click::OpenWebdav | Click::OpenFiles | Click::OpenConfig
            | Click::Start | Click::TestWebdav => !self.busy,
            Click::Stop => self.busy,
            Click::ClearFiles => self.files.len() > 0,
            Click::BulkMode(_) | Click::BulkWriteback(_) => self.has_marked(),
            Click::Select(i, _) | Click::SetMode(i, _) | Click::SetWriteback(i, _)
            | Click::Remove(i) => i < self.files.len(),
            _ => true,
        }
    }

    fn bulk_mode(&mut self, mode: SyncFileMode)
        requires
            wf(old(self)@),
        ensures
            final(self)@ == (AppView {
                files: with_mode(old(self)@.files, old(self)@.marked, mode),
                ..old(self)@
            }),
    {
        let ghost start = self@;
        let n = self.files.len();
        let mut i: usize = 0;
        while i < n
            invariant
                i <= n,
                n == start.files.len(),
                wf(start),
                self@ == (AppView { files: self@.files, ..start }),
                self@.files.len() == n,
                forall|j: int|
                    0 <= j < n ==> #[trigger] self@.files[j] == (if j < i {
                        with_mode(start.files, start.marked, mode)[j]
                    } else {
                        start.files[j]
                    }),
            decreases n - i,
        {
            assert(self@.files[i as int] == start.files[i as int]);
            if self.marked[i] {
                let writeback = self.files[i].writeback;
                set_file(&mut self.files, i, mode, writeback);
            }
            i = i + 1;
        }
        assert(self@.files =~= with_mode(start.files, start.marked, mode));
    }

    fn bulk_writeback(&mut self, writeback: bool)
        requires
            wf(old(self)@),
        ensures
            final(self)@ == (AppView {
                files: with_writeback(old(self)@.files, old(self)@.marked, writeback),
                ..old(self)@
            }),
    {
        let ghost start = self@;
        let n = self.files.len();
        let mut i: usize = 0;
        while i < n
            invariant
                i <= n,
                n == start.files.len(),
                wf(start),
                self@ == (AppView { files: self@.files, ..start }),
                self@.files.len() == n,
                forall|j: int|
                    0 <= j < n ==> #[trigger] self@.files[j] == (if j < i {
                        with_writeback(start.files, start.marked, writeback)[j]
                    } else {
                        start.files[j]
                    }),
            decreases n - i,
        {
            assert(self@.files[i as int] == start.files[i as int]);
            if self.marked[i] {
                let mode = self.files[i].mode;
                set_file(&mut self.files, i, mode, writeback);
            }
            i = i + 1;
        }
        assert(self@.files =~= with_writeback(start.files, start.marked, writeback));
    }

    /// Takes in a click that opens or closes a part of the window.
    fn show(&mut self, click: Click)
        requires
            windowed(click),
        ensures
            final(self)@ == clicked(old(self)@, click).0,
            clicked(old(self)@, click).1 == Effect::Nothing,
    {
        match click {
            Click::OpenWebdav => {
                self.show_webdav = true;
            },
            Click::OpenConfig => {
                self.config_draft = self.base.clone();
                self.show_config = true;
            },
            Click::OpenAbout => {
                self.show_about = true;
            },
            Click::ShowPassword(on) => {
                self.password_visible = on;
            },
            Click::CloseWebdav => {
                self.show_webdav = false;
            },
            Click::CloseFiles => {
                self.show_files = false;
            },
            Click::CloseConfig => {
                self.show_config = false;
            },
            Click::CloseAbout => {
                self.show_about = false;
            },
            _ => {
                self.notice = None;
            },
        }
    }

    /// Takes in a click on one file of the draft.
    fn edit_one(&mut self, click: Click)
        requires
            wf(old(self)@),
            enabled(old(self)@, click),
            one_file(click),
        ensures
            wf(final(self)@),
            final(self)@ == clicked(old(self)@, click).0,
            clicked(old(self)@, click).1 == Effect::Nothing,
    {
        let ghost start = self@;
        match click {
            Click::Select(i, on) => {
                self.marked[i] = on;
                assert(self@ =~= clicked(start, click).0);
            },
            Click::SetMode(i, mode) => {
                let writeback = self.files[i].writeback;
                set_file(&mut self.files, i, mode, writeback);
                assert(self@ =~= clicked(start, click).0);
            },
            Click::SetWriteback(i, writeback) => {
                let mode = self.files[i].mode;
                set_file(&mut self.files, i, mode, writeback);
                assert(self@ =~= clicked(start, click).0);
            },
            Click::Remove(i) => {
                let ghost before = self.files@;
                self.files.remove(i);
                self.marked.remove(i);
                assert(file_views(self.files@) =~= file_views(before).remove(i as int));
                assert(self@ =~= clicked(start, click).0);
            },
            _ => {},
        }
    }

    /// Takes in a click on the draft as a whole.
    fn edit_all(&mut self, click: Click)
        requires
            wf(old(self)@),
            whole_draft(click),
        ensures
            wf(final(self)@),
            final(self)@ == clicked(old(self)@, click).0,
            clicked(old(self)@, click).1 == Effect::Nothing,
    {
        let ghost start = self@;
        match click {
            Click::OpenFiles => {
                self.files = clone_files(&self.settings.sync_files);
                assert(file_views(self.files@).len() == self.files@.len());
                self.marked = repeated(false, self.files.len());
                self.show_files = true;
                assert(self@ =~= clicked(start, click).0);
            },
            Click::ClearFiles => {
                self.files = Vec::new();
                self.marked = Vec::new();
                assert(self@ =~= clicked(start, click).0);
            },
            Click::SelectAll(on) => {
                self.marked = repeated(on, self.marked.len());
                assert(self@ =~= clicked(start, click).0);
            },
            Click::BulkMode(mode) => {
                self.bulk_mode(mode);
            },
            Click::BulkWriteback(writeback) => {
                self.bulk_writeback(writeback);
            },
            _ => {},
        }
    }

    /// Takes a click in, and tells what it asks for. A click that does not count changes
    /// nothing.
    pub fn update(&mut self, click: Click) -> (res: Effect)
        requires
            wf(old(self)@),
        ensures
            wf(final(self)@),
            (final(self)@, res) == (if enabled(old(self)@, click) {
                clicked(old(self)@, click)
            } else {
                (old(self)@, Effect::Nothing)
            }),
    {
        if !self.is_enabled(click) {
            return Effect::Nothing;
        }
        match click {
            Click::ChooseRime => Effect::PickRime,
            Click::Start => {
                self.progress = 0;
                self.busy = true;
                Effect::StartSync
            },
            Click::Stop => Effect::StopSync,
            Click::TestWebdav => {
                self.busy = true;
                Effect::TestConnection
            },
            Click::SaveWebdav => Effect::SaveWebdav,
            Click::AddFiles => Effect::PickFiles,
            Click::SaveFiles => {
                self.settings.sync_files = clone_files(&self.files);
                Effect::SaveFiles
            },
            Click::PickConfig => Effect::PickConfig,
            Click::ShowConfig => Effect::ShowConfig,
            Click::SaveConfig => Effect::SaveConfig,
            Click::Select(_, _) | Click::SetMode(_, _) | Click::SetWriteback(_, _)
            | Click::Remove(_) => {
                self.edit_one(click);
                Effect::Nothing
            },
            Click::OpenFiles | Click::ClearFiles | Click::SelectAll(_) | Click::BulkMode(_)
            | Click::BulkWriteback(_) => {
                self.edit_all(click);
                Effect::Nothing
            },
            _ => {
                self.show(click);
                Effect::Nothing
            },
        }
    }
}

/// The draft has a file with the path.
pub open spec fn has_path(files: Seq<SyncFileView>, path: Seq<char>) -> bool {
    exists|i: int| 0 <= i < files.len() && (#[trigger] files[i]).path == path
}

/// The window after the user has picked a file, which is given by its path below the user
/// folder if it lies there. A file that is in the draft already is not added again.
pub open spec fn with_pick(app: AppView, pick: Option<Seq<char>>) -> AppView {
    match pick {
        None => AppView { notice: Some("同步文件必须位于当前 RIME 用户词库目录内。"@), ..app },
        Some(relative) => {
            let path = replaced(relative, '\\', "/"@);
            if path.len() == 0 || path.contains(';') {
                AppView { notice: Some("同步文件名不能为空，也不能包含分号。"@), ..app }
            } else if has_path(app.files, path) {
                app
            } else {
                AppView {
                    files: app.files.push(
                        SyncFileView { path, mode: SyncFileMode::Newest, writeback: true },
                    ),
                    marked: app.marked.push(false),
                    ..app
                }
            }
        },
    }
}

/// The window after the user has picked files.
pub open spec fn with_picks(app: AppView, picks: Seq<Option<Seq<char>>>) -> AppView
    decreases picks.len(),
{
    if picks.len() == 0 {
        app
    } else {
        with_pick(with_picks(app, picks.drop_last()), picks.last())
    }
}

fn knows_path(files: &Vec<SyncFile>, path: &str) -> (res: bool)
    ensures
        res == has_path(file_views(files@), path@),
{
    let ghost all = file_views(files@);
    let mut i: usize = 0;
    while i < files.len()
        invariant
            i <= files@.len(),
            all == file_views(files@),
            forall|j: int| 0 <= j < i ==> (#[trigger] all[j]).path != path@,
        decreases files@.len() - i,
    {
        assert(all[i as int] == files@[i as int]@);
        if same_text(files[i].path.as_str(), path) {
            return true;
        }
        i = i + 1;
    }
    false
}

impl App {
    fn add_pick(&mut self, pick: &Option<String>)
        requires
            wf(old(self)@),
        ensures
            wf(final(self)@),
            final(self)@ == with_pick(old(self)@, optional_view(*pick)),
    {
        let ghost start = self@;
        let path = match pick {
            Some(relative) => replace_char(relative.as_str(), '\\', "/"),
            None => {
                self.notice = Some("同步文件必须位于当前 RIME 用户词库目录内。".to_owned());
                return;
            },
        };
        if path.as_str().is_empty() || has_char(path.as_str(), ';') {
            self.notice = Some("同步文件名不能为空，也不能包含分号。".to_owned());
            return;
        }
        if knows_path(&self.files, path.as_str()) {
            return;
        }
        let ghost before = self.files@;
        let file = SyncFile { path, mode: SyncFileMode::Newest, writeback: true };
        let ghost shown = file@;
        self.files.push(file);
        self.marked.push(false);
        assert(file_views(self.files@) =~= file_views(before).push(shown));
        assert(self@ =~= with_pick(start, optional_view(*pick)));
    }

    /// Adds the files that the user has picked to the draft.
    pub fn choose_sync_files(&mut self, picks: &Vec<Option<String>>)
        requires
            wf(old(self)@),
        ensures
            wf(final(self)@),
            final(self)@ == with_picks(old(self)@, optional_views(picks@)),
    {
        let ghost start = self@;
        let ghost all = optional_views(picks@);
        let mut i: usize = 0;
        assert(all.take(0) =~= Seq::<Option<Seq<char>>>::empty());
        while i < picks.len()
            invariant
                i <= picks@.len(),
                all == optional_views(picks@),
                wf(self@),
                self@ == with_picks(start, all.take(i as int)),
            decreases picks@.len() - i,
        {
            assert(all.take(i + 1).drop_last() =~= all.take(i as int));
            assert(all.take(i + 1).last() == optional_view(picks@[i as int]));
            self.add_pick(&picks[i]);
            i = i + 1;
        }
        assert(all.take(i as int) =~= all);
    }
}

/// No two files of the draft have the same path.
pub open spec fn distinct_paths(files: Seq<SyncFileView>) -> bool {
    forall|i: int, j: int|
        0 <= i < j < files.len() ==> (#[trigger] files[i]).path != (#[trigger] files[j]).path
}

/// Picking files never puts a path into the draft twice, nor one that is empty or holds a
/// semicolon.
pub proof fn law_picked_files_are_distinct(app: AppView, picks: Seq<Option<Seq<char>>>)
    requires
        distinct_paths(app.files),
    ensures
        distinct_paths(with_picks(app, picks).files),
        app.files.len() <= with_picks(app, picks).files.len(),
        forall|i: int|
            0 <= i < app.files.len() ==> #[trigger] with_picks(app, picks).files[i]
                == app.files[i],
        forall|i: int|
            app.files.len() <= i < with_picks(app, picks).files.len() ==> {
                let path = (#[trigger] with_picks(app, picks).files[i]).path;
                path.len() > 0 && !path.contains(';')
            },
    decreases picks.len(),
{
    if picks.len() > 0 {
        law_picked_files_are_distinct(app, picks.drop_last());
    }
}

/// The line that tells that a user folder was chosen.
pub open spec fn chosen_line(id: Seq<char>) -> Seq<char> {
    "已指定 RIME 用户词库，installation_id 保持为 "@ + id + "，sync_dir 已指向程序目录下 Sync。"@
}

/// The window after something was saved, which is told by a line in the log or, if it
/// failed, by a notice.
pub open spec fn after_save(
    app: AppView,
    line: Seq<char>,
    failed: Option<Seq<char>>,
    seconds: i64,
) -> (AppView, Option<Seq<char>>) {
    match failed {
        Some(why) => (AppView { notice: Some(why), ..app }, None),
        None => (
            AppView { logs: with_line(app.logs, stamped(seconds, line)), ..app },
            Some(stamped(seconds, line)),
        ),
    }
}

impl App {
    fn tell(&mut self, line: &str, res: Result<(), String>, seconds: i64) -> (told: Option<String>)
        requires
            writable_time(seconds),
        ensures
            (final(self)@, optional_view(told)) == after_save(
                old(self)@,
                line@,
                reason(res),
                seconds,
            ),
    {
        match res {
            Ok(_) => {
                let line = timestamped(seconds, line);
                self.append(line.as_str());
                Some(line)
            },
            Err(why) => {
                self.notice = Some(why);
                None
            },
        }
    }

    /// Takes in how saving the WebDAV settings went; the window with them closes if it went
    /// well.
    pub fn webdav_saved(&mut self, res: Result<(), String>, seconds: i64) -> (told: Option<String>)
        requires
            writable_time(seconds),
        ensures
            ({
                let app = if res is Ok {
                    AppView { show_webdav: false, ..old(self)@ }
                } else {
                    old(self)@
                };
                (final(self)@, optional_view(told)) == after_save(
                    app,
                    "已保存 WebDAV 设置。"@,
                    reason(res),
                    seconds,
                )
            }),
    {
        if res.is_ok() {
            self.show_webdav = false;
        }
        self.tell("已保存 WebDAV 设置。", res, seconds)
    }

    /// Takes in how saving the selected files went; the window with them closes if it went
    /// well.
    pub fn files_saved(&mut self, res: Result<(), String>, seconds: i64) -> (told: Option<String>)
        requires
            writable_time(seconds),
        ensures
            ({
                let app = if res is Ok {
                    AppView { show_files: false, ..old(self)@ }
                } else {
                    old(self)@
                };
                (final(self)@, optional_view(told)) == after_save(
                    app,
                    "已保存同步文件选择。"@,
                    reason(res),
                    seconds,
                )
            }),
    {
        if res.is_ok() {
            self.show_files = false;
        }
        self.tell("已保存同步文件选择。", res, seconds)
    }

    /// Takes in how taking a user folder over went, which gives the folder's id.
    pub fn rime_chosen(&mut self, res: Result<String, String>, seconds: i64) -> (told: Option<
        String,
    >)
        requires
            writable_time(seconds),
        ensures
            (final(self)@, optional_view(told)) == (match res {
                Ok(id) => after_save(old(self)@, chosen_line(id@), None, seconds),
                Err(why) => after_save(old(self)@, Seq::empty(), Some(why@), seconds),
            }),
    {
        match res {
            Ok(id) => {
                let mut line = pair(
                    "已指定 RIME 用户词库，installation_id 保持为 ",
                    id.as_str(),
                );
                line.append("，sync_dir 已指向程序目录下 Sync。");
                self.tell(line.as_str(), Ok(()), seconds)
            },
            Err(why) => self.tell("", Err(why), seconds),
        }
    }

    /// Takes in how moving the program's files went, which gives the folder they are in.
    pub fn config_saved(&mut self, res: Result<String, String>, seconds: i64) -> (told: Option<
        String,
    >)
        requires
            writable_time(seconds),
        ensures
            (final(self)@, optional_view(told)) == (match res {
                Ok(dir) => {
                    let line = stamped(seconds, "已移动并切换 macOS 配置目录："@ + dir@);
                    (
                        AppView {
                            logs: with_line(old(self)@.logs, line),
                            show_config: false,
                            notice: Some("配置目录已移动并切换到：\n"@ + dir@),
                            ..old(self)@
                        },
                        Some(line),
                    )
                },
                Err(why) => (AppView { notice: Some(why@), ..old(self)@ }, None),
            }),
    {
        match res {
            Ok(dir) => {
                let text = pair("已移动并切换 macOS 配置目录：", dir.as_str());
                let told = self.tell(text.as_str(), Ok(()), seconds);
                self.show_config = false;
                self.notice = Some(pair("配置目录已移动并切换到：\n", dir.as_str()));
                told
            },
            Err(why) => {
                self.notice = Some(why);
                None
            },
        }
    }

    /// Takes in that the folder with the program's files could not be shown.
    pub fn config_not_shown(&mut self, why: &str)
        ensures
            final(self)@ == (AppView {
                notice: Some("打开配置目录失败："@ + why@),
                ..old(self)@
            }),
    {
        self.notice = Some(pair("打开配置目录失败：", why));
    }
}

/// A background task is started only when none runs, and the window is free again as soon
/// as the task has ended.
pub proof fn law_one_background_task_at_a_time(app: AppView, click: Click, event: EventView)
    requires
        enabled(app, click),
        clicked(app, click).1 is StartSync || clicked(app, click).1 is TestConnection,
    ensures
        !app.busy,
        clicked(app, click).0.busy,
        !enabled(clicked(app, click).0, Click::Start),
        !enabled(clicked(app, click).0, Click::TestWebdav),
        event is Finished || event is Tested ==> forall|seconds: i64|
            !(#[trigger] applied(clicked(app, click).0, event, seconds)).0.busy,
{
}

/// Picking files keeps the draft and its marks, and adds files without marks; nothing else
/// changes but the notice.
proof fn lemma_picks(app: AppView, picks: Seq<Option<Seq<char>>>)
    requires
        wf(app),
    ensures
        ({
            let new = with_picks(app, picks);
            &&& wf(new)
            &&& app.files.len() <= new.files.len()
            &&& forall|i: int|
                0 <= i < app.files.len() ==> #[trigger] new.files[i] == app.files[i]
                    && new.marked[i] == app.marked[i]
            &&& forall|i: int|
                app.files.len() <= i < new.files.len() ==> (#[trigger] new.files[i]).mode
                    == SyncFileMode::Newest && new.files[i].writeback && !new.marked[i]
            &&& new == AppView {
                files: new.files,
                marked: new.marked,
                notice: new.notice,
                ..app
            }
        }),
    decreases picks.len(),
{
    if picks.len() > 0 {
        let before = with_picks(app, picks.drop_last());
        let new = with_picks(app, picks);
        lemma_picks(app, picks.drop_last());
        assert forall|i: int| 0 <= i < app.files.len() implies #[trigger] new.files[i]
            == app.files[i] && new.marked[i] == app.marked[i] by {
            assert(before.files[i] == app.files[i]);
        }
        assert forall|i: int| app.files.len() <= i < new.files.len() implies (
        #[trigger] new.files[i]).mode == SyncFileMode::Newest && new.files[i].writeback
            && !new.marked[i] by {
            if i < before.files.len() {
                assert(before.files[i].writeback);
            }
        }
    }
}

/// A file that was picked inside the user folder is in the draft afterwards, with slashes
/// in its path. If it was not there before, the newer copy of it counts and it is written
/// back. The files of the draft stay as they were, and so does all else but the notice.
pub proof fn law_picked_files_are_added(
    app: AppView,
    picks: Seq<Option<Seq<char>>>,
    k: int,
    relative: Seq<char>,
)
    requires
        wf(app),
        0 <= k < picks.len(),
        picks[k] == Some(relative),
        relative.len() > 0,
        !relative.contains(';'),
    ensures
        ({
            let new = with_picks(app, picks);
            &&& exists|i: int|
                0 <= i < new.files.len() && (#[trigger] new.files[i]).path == slashed(relative) && (i
                    < app.files.len() || new.files[i].mode == SyncFileMode::Newest
                    && new.files[i].writeback)
            &&& forall|i: int|
                0 <= i < app.files.len() ==> #[trigger] new.files[i] == app.files[i]
                    && new.marked[i] == app.marked[i]
            &&& new == AppView {
                files: new.files,
                marked: new.marked,
                notice: new.notice,
                ..app
            }
        }),
    decreases picks.len(),
{
    reveal_strlit("/");
    assert("/"@ =~= seq!['/']);
    lemma_picks(app, picks);
    let init = picks.drop_last();
    lemma_picks(app, init);
    let before = with_picks(app, init);
    let new = with_picks(app, picks);
    let path = slashed(relative);
    if k < init.len() {
        law_picked_files_are_added(app, init, k, relative);
        let i = choose|i: int| 0 <= i < before.files.len() && (#[trigger] before.files[i]).path == path;
        assert(new.files[i] == before.files[i]);
    } else {
        law_backslashes_become_slashes(relative);
        assert(!path.contains(';')) by {
            assert forall|j: int| 0 <= j < path.len() implies path[j] != ';' by {
                assert(relative.contains(relative[j]));
            }
        }
        if has_path(before.files, path) {
            let i = choose|i: int|
                0 <= i < before.files.len() && (#[trigger] before.files[i]).path == path;
            assert(new.files[i] == before.files[i]);
        } else {
            assert(new.files[new.files.len() - 1].path == path);
        }
    }
}

/// A pick outside the user folder, or one that the list of files cannot carry, is told and
/// changes nothing.
pub proof fn law_other_picks_are_told(app: AppView, relative: Seq<char>)
    requires
        relative.len() == 0 || relative.contains(';'),
    ensures
        with_pick(app, None) == (AppView { notice: with_pick(app, None).notice, ..app }),
        with_pick(app, None).notice is Some,
        with_pick(app, Some(relative)) == (AppView {
            notice: with_pick(app, Some(relative)).notice,
            ..app
        }),
        with_pick(app, Some(relative)).notice is Some,
{
    reveal_strlit("/");
    assert("/"@ =~= seq!['/']);
    law_backslashes_become_slashes(relative);
    let path = slashed(relative);
    if relative.contains(';') {
        let j = choose|j: int| 0 <= j < relative.len() && relative[j] == ';';
        assert(path[j] == ';');
    }
}

/// What is done to all marked files is done to each marked file and to no other.
pub proof fn law_marked_files_are_changed(
    files: Seq<SyncFileView>,
    marked: Seq<bool>,
    mode: SyncFileMode,
    writeback: bool,
    i: int,
)
    requires
        0 <= i < files.len(),
        marked.len() == files.len(),
    ensures
        with_mode(files, marked, mode).len() == files.len(),
        with_writeback(files, marked, writeback).len() == files.len(),
        !marked[i] ==> with_mode(files, marked, mode)[i] == files[i] && with_writeback(
            files,
            marked,
            writeback,
        )[i] == files[i],
        marked[i] ==> with_mode(files, marked, mode)[i] == (SyncFileView {
            path: files[i].path,
            mode,
            writeback: files[i].writeback,
        }) && with_writeback(files, marked, writeback)[i] == (SyncFileView {
            path: files[i].path,
            mode: files[i].mode,
            writeback,
        }),
{
}

/// A click on one file of the draft changes that file, or its mark, and nothing else.
pub proof fn law_clicks_on_a_file(
    app: AppView,
    i: usize,
    on: bool,
    mode: SyncFileMode,
    writeback: bool,
)
    requires
        wf(app),
        i < app.files.len(),
    ensures
        ({
            let set = clicked(app, Click::SetMode(i, mode));
            &&& set.0 == AppView { files: set.0.files, ..app }
            &&& set.0.files.len() == app.files.len()
            &&& set.0.files[i as int] == SyncFileView { mode, ..app.files[i as int] }
            &&& forall|j: int|
                0 <= j < app.files.len() && j != i ==> #[trigger] set.0.files[j] == app.files[j]
        }),
        ({
            let set = clicked(app, Click::SetWriteback(i, writeback));
            &&& set.0 == AppView { files: set.0.files, ..app }
            &&& set.0.files.len() == app.files.len()
            &&& set.0.files[i as int] == SyncFileView { writeback, ..app.files[i as int] }
            &&& forall|j: int|
                0 <= j < app.files.len() && j != i ==> #[trigger] set.0.files[j] == app.files[j]
        }),
        ({
            let set = clicked(app, Click::Select(i, on));
            &&& set.0 == AppView { marked: set.0.marked, ..app }
            &&& set.0.marked.len() == app.marked.len()
            &&& set.0.marked[i as int] == on
            &&& forall|j: int|
                0 <= j < app.marked.len() && j != i ==> #[trigger] set.0.marked[j] == app.marked[j]
        }),
        ({
            let set = clicked(app, Click::Remove(i));
            &&& set.0 == AppView { files: set.0.files, marked: set.0.marked, ..app }
            &&& set.0.files == app.files.take(i as int) + app.files.skip(i + 1)
            &&& set.0.marked == app.marked.take(i as int) + app.marked.skip(i + 1)
        }),
{
    let set = clicked(app, Click::Remove(i));
    assert(set.0.files =~= app.files.take(i as int) + app.files.skip(i + 1));
    assert(set.0.marked =~= app.marked.take(i as int) + app.marked.skip(i + 1));
}

/// The list of files is edited as a draft: opening it takes the selected files over without
/// marks, and only saving makes the draft the selected files. No other click changes the
/// settings, and none writes to the log.
pub proof fn law_settings_change_by_saving_alone(app: AppView, click: Click)
    ensures
        !(click is SaveFiles) ==> clicked(app, click).0.settings == app.settings,
        clicked(app, Click::SaveFiles).0.settings == (SettingsView {
            sync_files: app.files,
            ..app.settings
        }),
        clicked(app, Click::SaveFiles).0.files == app.files,
        clicked(app, Click::OpenFiles).0.files == app.settings.sync_files,
        !clicked(app, Click::OpenFiles).0.marked.contains(true),
        wf(clicked(app, Click::OpenFiles).0),
        clicked(app, click).0.logs == app.logs,
        clicked(app, click).0.base == app.base,
        !(click is Start || click is TestWebdav) ==> clicked(app, click).0.busy == app.busy,
        !(click is Start) ==> clicked(app, click).0.progress == app.progress,
        !(click is CloseNotice) ==> clicked(app, click).0.notice == app.notice,
{
}

/// A run shows no progress when it starts, and whatever it reports from then on.
pub proof fn law_events_are_shown(app: AppView, text: Seq<char>, value: u8, seconds: i64)
    ensures
        clicked(app, Click::Start).0.progress == 0,
        applied(app, EventView::Progress(value), seconds).0 == (AppView { progress: value, ..app }),
        applied(app, EventView::Log(text), seconds).0 == (AppView {
            logs: app.logs + text + seq!['\n'],
            ..app
        }),
        applied(app, EventView::Log(text), seconds).1 == Some(text),
        ({
            let ended = applied(app, EventView::Finished(Some(text)), seconds);
            &&& ended.0.notice == Some(text)
            &&& !ended.0.busy
            &&& ended.0.settings == app.settings
            &&& ended.1 matches Some(line) && line.len() >= text.len() && line.skip(
                line.len() - text.len(),
            ) == text && ended.0.logs == app.logs + line + seq!['\n']
        }),
        ({
            let ended = applied(app, EventView::Finished(None), seconds);
            &&& ended.0 == AppView { busy: false, notice: ended.0.notice, ..app }
            &&& ended.0.notice is Some
            &&& ended.1 is None
        }),
        ({
            let ended = applied(app, EventView::Tested(Some(text)), seconds);
            &&& ended.0 == AppView { busy: false, notice: ended.0.notice, ..app }
            &&& ended.0.notice matches Some(told) && told.len() >= text.len() && told.skip(
                told.len() - text.len(),
            ) == text
        }),
{
    reveal_strlit("\n");
    assert("\n"@ =~= seq!['\n']);
    let line = stamped(seconds, "失败: "@ + text);
    assert(line.skip(line.len() - text.len()) =~= text);
    let told = "测试失败："@ + text;
    assert(told.skip(told.len() - text.len()) =~= text);
}

/// What was saved is told in the log with its time, and a failure by a notice alone.
pub proof fn law_saving_is_told(app: AppView, line: Seq<char>, why: Seq<char>, seconds: i64)
    ensures
        after_save(app, line, Some(why), seconds) == (AppView { notice: Some(why), ..app }, None::<
            Seq<char>,
        >),
        ({
            let (new, told) = after_save(app, line, None, seconds);
            &&& told matches Some(text) && text.len() >= line.len() && text.skip(
                text.len() - line.len(),
            ) == line && new.logs == app.logs + text + seq!['\n']
            &&& new == AppView { logs: new.logs, ..app }
        }),
{
    reveal_strlit("\n");
    assert("\n"@ =~= seq!['\n']);
    let text = stamped(seconds, line);
    assert(text.skip(text.len() - line.len()) =~= line);
}

/// While a background task runs, nothing can be started that would get in its way, and only
/// then can it be stopped. What concerns the draft can be clicked as far as it is there.
pub proof fn law_what_can_be_clicked(app: AppView, i: usize, on: bool, mode: SyncFileMode)
    ensures
        app.busy ==> !enabled(app, Click::Start) && !enabled(app, Click::TestWebdav) && !enabled(
            app,
            Click::ChooseRime,
        ) && !enabled(app, Click::OpenWebdav) && !enabled(app, Click::OpenFiles) && !enabled(
            app,
            Click::OpenConfig,
        ),
        !app.busy ==> enabled(app, Click::Start) && enabled(app, Click::TestWebdav) && enabled(
            app,
            Click::ChooseRime,
        ) && enabled(app, Click::OpenWebdav) && enabled(app, Click::OpenFiles) && enabled(
            app,
            Click::OpenConfig,
        ),
        enabled(app, Click::Stop) <==> app.busy,
        enabled(app, Click::Select(i, on)) <==> i < app.files.len(),
        enabled(app, Click::SetMode(i, mode)) <==> i < app.files.len(),
        enabled(app, Click::SetWriteback(i, on)) <==> i < app.files.len(),
        enabled(app, Click::Remove(i)) <==> i < app.files.len(),
        enabled(app, Click::ClearFiles) <==> app.files.len() > 0,
        enabled(app, Click::BulkMode(mode)) <==> exists|j: int|
            0 <= j < app.marked.len() && #[trigger] app.marked[j],
        enabled(app, Click::BulkWriteback(on)) <==> exists|j: int|
            0 <= j < app.marked.len() && #[trigger] app.marked[j],
        enabled(app, Click::SaveFiles) && enabled(app, Click::AddFiles) && enabled(
            app,
            Click::SaveWebdav,
        ) && enabled(app, Click::SaveConfig),
{
    if exists|j: int| 0 <= j < app.marked.len() && #[trigger] app.marked[j] {
        let j = choose|j: int| 0 <= j < app.marked.len() && #[trigger] app.marked[j];
        assert(app.marked[j] == true);
    }
}

/// What the caller is asked to do follows from the click alone: each of these clicks asks
/// for its own effect, in every state, and no other click asks for anything.
pub proof fn law_effects_come_from_their_clicks(app: AppView, click: Click)
    ensures
        clicked(app, click).1 is PickRime <==> click is ChooseRime,
        clicked(app, click).1 is StartSync <==> click is Start,
        clicked(app, click).1 is StopSync <==> click is Stop,
        clicked(app, click).1 is TestConnection <==> click is TestWebdav,
        clicked(app, click).1 is SaveWebdav <==> click is SaveWebdav,
        clicked(app, click).1 is PickFiles <==> click is AddFiles,
        clicked(app, click).1 is SaveFiles <==> click is SaveFiles,
        clicked(app, click).1 is PickConfig <==> click is PickConfig,
        clicked(app, click).1 is ShowConfig <==> click is ShowConfig,
        clicked(app, click).1 is SaveConfig <==> click is SaveConfig,
{
}

/// Each part of the window is shown from the click that opens it to the click that closes
/// it, and no other click shows or hides it.
pub proof fn law_windows_open_and_close(app: AppView, click: Click)
    ensures
        ({
            let new = clicked(app, click).0;
            &&& new.show_webdav == (click is OpenWebdav || app.show_webdav && !(click is CloseWebdav))
            &&& new.show_files == (click is OpenFiles || app.show_files && !(click is CloseFiles))
            &&& new.show_config == (click is OpenConfig || app.show_config && !(click is CloseConfig))
            &&& new.show_about == (click is OpenAbout || app.show_about && !(click is CloseAbout))
            &&& click is OpenConfig ==> new.config_draft == app.base
            &&& !(click is OpenConfig) ==> new.config_draft == app.config_draft
            &&& click is CloseNotice ==> new.notice is None
            &&& !(click is ShowPassword) ==> new.password_visible == app.password_visible
        }),
        clicked(app, Click::ShowPassword(true)).0.password_visible,
        !clicked(app, Click::ShowPassword(false)).0.password_visible,
{
}

/// Clicks on all files at once reach every marked file and no other, and clicks that are
/// not about the draft leave it alone.
pub proof fn law_clicks_on_all_files(
    app: AppView,
    click: Click,
    on: bool,
    mode: SyncFileMode,
    i: int,
)
    requires
        wf(app),
        0 <= i < app.files.len(),
    ensures
        clicked(app, Click::SelectAll(on)).0.marked.len() == app.marked.len(),
        clicked(app, Click::SelectAll(on)).0.marked[i] == on,
        clicked(app, Click::BulkMode(mode)).0.files.len() == app.files.len(),
        clicked(app, Click::BulkMode(mode)).0.files[i] == (SyncFileView {
            mode: if app.marked[i] {
                mode
            } else {
                app.files[i].mode
            },
            ..app.files[i]
        }),
        clicked(app, Click::BulkWriteback(on)).0.files.len() == app.files.len(),
        clicked(app, Click::BulkWriteback(on)).0.files[i] == (SyncFileView {
            writeback: if app.marked[i] {
                on
            } else {
                app.files[i].writeback
            },
            ..app.files[i]
        }),
        clicked(app, Click::ClearFiles).0.files.len() == 0,
        clicked(app, Click::ClearFiles).0.marked.len() == 0,
        !(click is OpenFiles || click is SetMode || click is SetWriteback || click is Remove
            || click is ClearFiles || click is BulkMode || click is BulkWriteback) ==> clicked(
            app,
            click,
        ).0.files == app.files,
        !(click is OpenFiles || click is Select || click is Remove || click is ClearFiles
            || click is SelectAll) ==> clicked(app, click).0.marked == app.marked,
{
}

/// The window opens at rest, with the settings and the log that it is given.
pub proof fn law_window_opens_at_rest(base: Seq<char>, settings: SettingsView, logs: Seq<char>)
    ensures
        ({
            let app = opened(base, settings, logs);
            &&& wf(app)
            &&& app.base == base && app.settings == settings && app.logs == logs
            &&& !app.busy && app.progress == 0 && app.notice is None
            &&& !(app.show_webdav || app.show_files || app.show_config || app.show_about)
            &&& !app.password_visible
        }),
{
}

/// The log tells the id of the device whose folder was chosen.
pub proof fn law_chosen_id_is_told(id: Seq<char>)
    ensures
        exists|before: Seq<char>, after: Seq<char>| #[trigger]
            (before + id + after) == chosen_line(id),
{
    let before = "已指定 RIME 用户词库，installation_id 保持为 "@;
    let after = "，sync_dir 已指向程序目录下 Sync。"@;
    assert(before + id + after == chosen_line(id));
}

} // verus!
