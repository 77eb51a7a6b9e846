//! The steps of a run, in their order.
//!
//! A run hands out one task at a time. The caller carries it out and hands the outcome
//! back; after a failure or a stop no further task is handed out. Reports to the user
//! cannot fail, and once nothing else is left there is nothing to stop. In the tasks, the
//! mirror is the local copy of the shared folder, and the device folder is the one that
//! RIME synchronises with.
use vstd::prelude::*;

use crate::config::{file_views, SettingsView, SyncFile, SyncFileView};
use crate::error::{Fault, SyncError};
use crate::paths::slashed;
use crate::sync::{
    choose_dictionaries, device_id, dictionaries, gram_selected, is_dictionary,
    law_every_dictionary_is_chosen, law_language_model_is_kept_if_selected,
    remove_default_gram_unless_selected, selects, slashed_files,
};
use crate::text::{
    decimal, decimal_text, law_digits_denote_the_number, number_of, same_letters, views,
};

verus! {

/// Something that a run asks its caller to do. A number is the index of a selected file
/// or, for `Download`, of a remote file.
#[derive(Debug, PartialEq, Eq)]
pub enum Task {
    /// Write a line to the log.
    Log(String),
    /// Show how far the run is, in percent.
    Progress(u8),
    /// Make RIME synchronise.
    RunSync,
    /// Make RIME deploy.
    RunDeploy,
    /// Remove the default language model from the device folder.
    DropGram,
    /// Copy a dictionary, by its path, from the user folder to the device folder.
    CollectDictionary(String),
    /// Copy a selected file, if it is there, from the user folder to the device folder.
    Collect(usize),
    /// List the shared folder, and say how many files there are.
    ListRemote,
    /// Empty the mirror.
    ResetMirror,
    /// Copy the device folder into the mirror.
    SeedMirror,
    /// Download a file into the mirror.
    Download(usize),
    /// Name the mirror's device `WebDAV`.
    MarkMirror,
    /// Upload the mirror.
    Upload,
    /// List the files below the dictionary folders of the mirror and of the device folder.
    ListDictionaries,
    /// Write the union of the two copies of a dictionary, by its path, to both.
    MergeDictionary(String),
    /// Bring the two copies of a selected file together.
    Combine(usize),
    /// Copy a selected file, if it is there, from the device folder to the user folder,
    /// and say how many were copied.
    WriteBack(usize),
    /// Empty the mirror at the end.
    ClearMirror,
    /// Empty the device folder at the end.
    ClearDevice,
}

/// What a [`Task`] says.
pub enum TaskView {
    Log(Seq<char>),
    Progress(int),
    RunSync,
    RunDeploy,
    DropGram,
    CollectDictionary(Seq<char>),
    Collect(int),
    ListRemote,
    ResetMirror,
    SeedMirror,
    Download(int),
    MarkMirror,
    Upload,
    ListDictionaries,
    MergeDictionary(Seq<char>),
    Combine(int),
    WriteBack(int),
    ClearMirror,
    ClearDevice,
}

impl View for Task {
    type V = TaskView;

    open spec fn view(&self) -> TaskView {
        match self {
            Task::Log(text) => TaskView::Log(text@),
            Task::Progress(value) => TaskView::Progress(*value as int),
            Task::RunSync => TaskView::RunSync,
            Task::RunDeploy => TaskView::RunDeploy,
            Task::DropGram => TaskView::DropGram,
            Task::CollectDictionary(path) => TaskView::CollectDictionary(path@),
            Task::Collect(i) => TaskView::Collect(*i as int),
            Task::ListRemote => TaskView::ListRemote,
            Task::ResetMirror => TaskView::ResetMirror,
            Task::SeedMirror => TaskView::SeedMirror,
            Task::Download(i) => TaskView::Download(*i as int),
            Task::MarkMirror => TaskView::MarkMirror,
            Task::Upload => TaskView::Upload,
            Task::ListDictionaries => TaskView::ListDictionaries,
            Task::MergeDictionary(path) => TaskView::MergeDictionary(path@),
            Task::Combine(i) => TaskView::Combine(*i as int),
            Task::WriteBack(i) => TaskView::WriteBack(*i as int),
            Task::ClearMirror => TaskView::ClearMirror,
            Task::ClearDevice => TaskView::ClearDevice,
        }
    }
}

/// What a list of tasks says.
pub open spec fn task_views(tasks: Seq<Task>) -> Seq<TaskView> {
    tasks.map_values(|task: Task| task@)
}

/// What a run is about: the device's id, the selected files, and the dictionaries of the
/// user folder.
pub struct Job {
    pub id: Seq<char>,
    pub files: Seq<SyncFileView>,
    pub dictionaries: Seq<Seq<char>>,
}

/// What a run is about for the device with the given id and selected files, whose user
/// folder holds the files of `found` in its dictionary folders.
pub open spec fn job_for(id: Seq<char>, files: Seq<SyncFileView>, found: Seq<Seq<char>>) -> Job {
    Job { id, files, dictionaries: dictionaries(found, files) }
}

/// What decides on all tasks of a run: what it is about, how many remote files there
/// are, which dictionaries are merged, and how many files are written back.
pub struct Course {
    pub job: Job,
    pub remote: nat,
    pub merges: Seq<Seq<char>>,
    pub written: nat,
}

/// The language model is dropped, unless it was selected.
pub open spec fn gram_tasks(job: Job) -> Seq<TaskView> {
    if gram_selected(job.files) {
        Seq::empty()
    } else {
        seq![TaskView::DropGram]
    }
}

/// The line that says how many files were collected.
pub open spec fn collected_line(job: Job) -> Seq<char> {
    "步骤 1/7：RIME 自带同步数据已生成，并复制 "@ + decimal(job.files.len()) + " 个自选文件到 Sync/"@ + job.id + "。"@
}

/// The first part of a run: RIME's data, the dictionaries and the selected files are
/// collected in the device folder, and the shared folder is listed.
pub open spec fn collecting(job: Job) -> Seq<TaskView> {
    seq![TaskView::Log("步骤 1/7：第 1 次运行 RIME 用户资料同步。"@), TaskView::RunSync] + gram_tasks(
        job,
    ) + seq![TaskView::Progress(15)] + Seq::new(
        job.dictionaries.len(),
        |i: int| TaskView::CollectDictionary(job.dictionaries[i]),
    ) + Seq::new(job.files.len(), |i: int| TaskView::Collect(i)) + seq![
        TaskView::Log(collected_line(job)),
        TaskView::Progress(25),
        TaskView::ListRemote,
    ]
}

/// The mirror is filled: from the shared folder or, if that is empty, from the device
/// folder, which is then uploaded.
pub open spec fn filling(remote: nat) -> Seq<TaskView> {
    if remote == 0 {
        seq![
            TaskView::Log("步骤 2/7：WebDAV 远端为空，使用当前同步数据初始化。"@),
            TaskView::SeedMirror,
            TaskView::MarkMirror,
            TaskView::Upload,
        ]
    } else {
        seq![TaskView::Log("步骤 2/7：下载 WebDAV 文件: "@ + decimal(remote) + " 个。"@)] + Seq::new(
            remote,
            |i: int| TaskView::Download(i),
        ) + seq![TaskView::MarkMirror]
    }
}

/// The second part of a run: the mirror is filled, RIME takes it over, and the
/// dictionaries of both sides are listed.
pub open spec fn mirroring(job: Job, remote: nat) -> Seq<TaskView> {
    seq![TaskView::ResetMirror] + filling(remote) + seq![
        TaskView::Log("步骤 3/7：已确认本地文件夹与同步文件夹位于同一 Sync 根目录。"@),
        TaskView::Progress(45),
        TaskView::Log("步骤 4/7：第 2 次运行 RIME 用户资料同步。"@),
        TaskView::RunSync,
    ] + gram_tasks(job) + seq![TaskView::Progress(65), TaskView::ListDictionaries]
}

/// The files that are written back, among the first `n`.
pub open spec fn write_backs(files: Seq<SyncFileView>, n: int) -> Seq<TaskView>
    decreases n,
{
    if n <= 0 {
        Seq::empty()
    } else if files[n - 1].writeback {
        write_backs(files, n - 1).push(TaskView::WriteBack(n - 1))
    } else {
        write_backs(files, n - 1)
    }
}

/// The third part of a run: the dictionaries are merged, the selected files are brought
/// together and written back.
pub open spec fn combining(job: Job, merges: Seq<Seq<char>>) -> Seq<TaskView> {
    Seq::new(merges.len(), |i: int| TaskView::MergeDictionary(merges[i])) + Seq::new(
        job.files.len(),
        |i: int| TaskView::Combine(i),
    ) + seq![
        TaskView::MarkMirror,
        TaskView::Log("步骤 5/7：已按设置同步 "@ + decimal(job.files.len()) + " 个自选文件。"@),
    ] + write_backs(job.files, job.files.len() as int)
}

/// The last part of a run: RIME deploys, the mirror is uploaded, and the folders are
/// emptied.
pub open spec fn finishing(written: nat) -> Seq<TaskView> {
    seq![
        TaskView::Log("步骤 5/7：已回写 "@ + decimal(written) + " 个自选文件。"@),
        TaskView::Log("步骤 5/7：开始重新部署 RIME。"@),
        TaskView::RunDeploy,
        TaskView::Progress(80),
        TaskView::Log("步骤 6/7：覆盖上传本地文件夹全部内容到 WebDAV。"@),
        TaskView::Upload,
        TaskView::Progress(95),
        TaskView::Log("步骤 7/7：上传完成，清空本地文件夹和同步文件夹（保留目录）。"@),
        TaskView::ClearMirror,
        TaskView::ClearDevice,
        TaskView::Progress(100),
        TaskView::Log("全部同步步骤已完成。"@),
    ]
}

/// All tasks of a run.
pub open spec fn script(course: Course) -> Seq<TaskView> {
    collecting(course.job) + mirroring(course.job, course.remote) + combining(
        course.job,
        course.merges,
    ) + finishing(course.written)
}

/// How a task ended.
#[derive(Debug, PartialEq, Eq)]
pub enum Outcome {
    /// It was carried out; the number is what the task asked to be counted.
    Done(usize),
    /// It was carried out and found these files.
    Found(Vec<String>),
    /// It failed.
    Failed(SyncError),
}

/// What an [`Outcome`] says.
pub enum OutcomeView {
    Done(nat),
    Found(Seq<Seq<char>>),
    Failed(Fault),
}

impl View for Outcome {
    type V = OutcomeView;

    open spec fn view(&self) -> OutcomeView {
        match self {
            Outcome::Done(count) => OutcomeView::Done(*count as nat),
            Outcome::Found(found) => OutcomeView::Found(views(found@)),
            Outcome::Failed(e) => OutcomeView::Failed(e@),
        }
    }
}

/// What an outcome counts.
pub open spec fn count_of(outcome: OutcomeView) -> nat {
    match outcome {
        OutcomeView::Done(count) => count,
        OutcomeView::Found(found) => found.len(),
        OutcomeView::Failed(_) => 0,
    }
}

/// The files that an outcome has found.
pub open spec fn found_of(outcome: OutcomeView) -> Seq<Seq<char>> {
    match outcome {
        OutcomeView::Found(found) => found,
        _ => Seq::empty(),
    }
}

/// The parts of a run.
#[derive(Clone, Copy, Debug, PartialEq, Eq, Structural)]
pub enum Stage {
    Collecting,
    Mirroring,
    Combining,
    Finishing,
}

/// A run that waits for the outcome of a task.
pub struct Run {
    id: String,
    files: Vec<SyncFile>,
    dictionaries: Vec<String>,
    stage: Stage,
    remote: usize,
    merges: Vec<String>,
    written: usize,
    tasks: Vec<Task>,
    at: usize,
}

/// What a [`Run`] says: what is known of its course, and the task that it waits for.
pub struct RunView {
    pub course: Course,
    pub stage: Stage,
    pub at: int,
}

impl View for Run {
    type V = RunView;

    closed spec fn view(&self) -> RunView {
        RunView {
            course: Course {
                job: Job {
                    id: self.id@,
                    files: file_views(self.files@),
                    dictionaries: views(self.dictionaries@),
                },
                remote: self.remote as nat,
                merges: views(self.merges@),
                written: self.written as nat,
            },
            stage: self.stage,
            at: self.at as int,
        }
    }
}

/// The tasks of the part that a run is in.
pub open spec fn stage_tasks(run: RunView) -> Seq<TaskView> {
    match run.stage {
        Stage::Collecting => collecting(run.course.job),
        Stage::Mirroring => mirroring(run.course.job, run.course.remote),
        Stage::Combining => combining(run.course.job, run.course.merges),
        Stage::Finishing => finishing(run.course.written),
    }
}

impl Run {
    /// The run waits for one of its tasks.
    pub closed spec fn wf(&self) -> bool {
        &&& task_views(self.tasks@) == stage_tasks(self@)
        &&& self.at < self.tasks@.len()
        &&& self.stage is Collecting || self.stage is Mirroring ==> self.written == 0
        &&& self.stage is Combining ==> self.written <= self.at
    }
}

/// The task that a run waits for.
pub open spec fn current(run: RunView) -> TaskView {
    stage_tasks(run)[run.at]
}

/// How many files were written back after the current task, which counted `count`.
pub open spec fn written_after(run: RunView, count: nat) -> nat {
    if current(run) is WriteBack && count > 0 {
        run.course.written + 1
    } else {
        run.course.written
    }
}

/// The run after the given outcome of its current task. The list of remote files says
/// how many there are, and that of the dictionaries which are merged.
pub open spec fn advanced(run: RunView, outcome: OutcomeView) -> RunView {
    let count = count_of(outcome);
    let course = Course { written: written_after(run, count), ..run.course };
    if run.at + 1 < stage_tasks(run).len() {
        RunView { course, at: run.at + 1, ..run }
    } else {
        match run.stage {
            Stage::Collecting => RunView {
                course: Course { remote: count, ..course },
                stage: Stage::Mirroring,
                at: 0,
            },
            Stage::Mirroring => RunView {
                course: Course {
                    merges: dictionaries(found_of(outcome), run.course.job.files),
                    ..course
                },
                stage: Stage::Combining,
                at: 0,
            },
            _ => RunView { course, stage: Stage::Finishing, at: 0 },
        }
    }
}

/// The task only tells the user something.
pub open spec fn is_report(task: TaskView) -> bool {
    task is Log || task is Progress
}

/// Nothing but reports comes after the current task.
pub open spec fn work_done(run: RunView) -> bool {
    run.stage is Finishing && forall|i: int|
        run.at < i < stage_tasks(run).len() ==> is_report(#[trigger] stage_tasks(run)[i])
}

/// The run waits for its last task.
pub open spec fn is_last(run: RunView) -> bool {
    run.stage is Finishing && run.at + 1 == stage_tasks(run).len()
}

/// How a run goes on.
pub enum Step {
    /// A task has to be carried out.
    Do(Run, Task),
    /// The run is complete.
    Finished,
    /// The run has ended before its time.
    Failed(SyncError),
}

/// What a [`Step`] says.
pub enum StepView {
    Do(RunView, TaskView),
    Finished,
    Failed(Fault),
}

impl View for Step {
    type V = StepView;

    open spec fn view(&self) -> StepView {
        match self {
            Step::Do(run, task) => StepView::Do(run@, task@),
            Step::Finished => StepView::Finished,
            Step::Failed(e) => StepView::Failed(e@),
        }
    }
}

/// The step in which a run hands out its current task.
pub open spec fn handed_out(run: RunView) -> StepView {
    StepView::Do(run, current(run))
}

/// How a run starts.
pub open spec fn started(job: Job) -> StepView {
    handed_out(
        RunView {
            course: Course { job, remote: 0, merges: Seq::empty(), written: 0 },
            stage: Stage::Collecting,
            at: 0,
        },
    )
}

/// What the outcome of the current task means: a report cannot fail.
pub open spec fn settled(run: RunView, outcome: OutcomeView) -> OutcomeView {
    if is_report(current(run)) {
        OutcomeView::Done(0)
    } else {
        outcome
    }
}

/// How a run goes on after the outcome of its current task. A failure ends it, and so
/// does a stop while there is something left to do.
pub open spec fn next_step(run: RunView, outcome: OutcomeView, stopped: bool) -> StepView {
    match settled(run, outcome) {
        OutcomeView::Failed(fault) => StepView::Failed(fault),
        success => if is_last(run) {
            StepView::Finished
        } else if stopped && !work_done(run) {
            StepView::Failed(Fault::Stopped)
        } else {
            handed_out(advanced(run, success))
        },
    }
}

/// Adds a task.
fn put(tasks: &mut Vec<Task>, task: Task)
    ensures
        task_views(final(tasks)@) == task_views(old(tasks)@).push(task@),
{
    let ghost before = tasks@;
    let ghost shown = task@;
    tasks.push(task);
    assert(task_views(tasks@) =~= task_views(before).push(shown));
}

/// A text with a number in it.
fn counted(before: &str, count: usize, after: &str) -> (res: String)
    ensures
        res@ == before@ + decimal(count as nat) + after@,
{
    let mut text = before.to_owned();
    text.append(decimal_text(count as u64).as_str());
    text.append(after);
    text
}

fn put_gram(tasks: &mut Vec<Task>, files: &Vec<SyncFile>, Ghost(job): Ghost<Job>)
    requires
        job.files == file_views(files@),
    ensures
        task_views(final(tasks)@) == task_views(old(tasks)@) + gram_tasks(job),
{
    let ghost before = task_views(tasks@);
    if remove_default_gram_unless_selected(files) {
        put(tasks, Task::DropGram);
        assert(before.push(TaskView::DropGram) =~= before + seq![TaskView::DropGram]);
    } else {
        assert(before + Seq::<TaskView>::empty() =~= before);
    }
}

/// Adds a task for each dictionary: to collect it, or else to merge it.
fn put_dictionaries(tasks: &mut Vec<Task>, paths: &Vec<String>, collect: bool)
    ensures
        collect ==> task_views(final(tasks)@) == task_views(old(tasks)@) + Seq::new(
            paths@.len(),
            |i: int| TaskView::CollectDictionary(views(paths@)[i]),
        ),
        !collect ==> task_views(final(tasks)@) == task_views(old(tasks)@) + Seq::new(
            paths@.len(),
            |i: int| TaskView::MergeDictionary(views(paths@)[i]),
        ),
{
    let ghost head = task_views(tasks@);
    let ghost shown = views(paths@);
    let ghost all = Seq::new(
        paths@.len(),
        |i: int|
            if collect {
                TaskView::CollectDictionary(shown[i])
            } else {
                TaskView::MergeDictionary(shown[i])
            },
    );
    assert(head + all.take(0) =~= head);
    let mut i: usize = 0;
    while i < paths.len()
        invariant
            i <= paths@.len(),
            all.len() == paths@.len(),
            shown == views(paths@),
            forall|j: int|
                0 <= j < all.len() ==> #[trigger] all[j] == (if collect {
                    TaskView::CollectDictionary(shown[j])
                } else {
                    TaskView::MergeDictionary(shown[j])
                }),
            task_views(tasks@) == head + all.take(i as int),
        decreases paths@.len() - i,
    {
        let path = paths[i].clone();
        assert(shown[i as int] == path@);
        let task = if collect {
            Task::CollectDictionary(path)
        } else {
            Task::MergeDictionary(path)
        };
        assert(task@ == all[i as int]);
        put(tasks, task);
        assert(all.take(i + 1) =~= all.take(i as int).push(all[i as int]));
        assert(head + all.take(i as int).push(all[i as int]) =~= (head + all.take(i as int)).push(
            all[i as int],
        ));
        i = i + 1;
    }
    assert(all.take(i as int) =~= all);
    proof {
        if collect {
            assert(all =~= Seq::new(
                paths@.len(),
                |i: int| TaskView::CollectDictionary(views(paths@)[i]),
            ));
        } else {
            assert(all =~= Seq::new(
                paths@.len(),
                |i: int| TaskView::MergeDictionary(views(paths@)[i]),
            ));
        }
    }
}

fn plan_collecting(id: &str, files: &Vec<SyncFile>, paths: &Vec<String>) -> (res: Vec<Task>)
    ensures
        res@.len() > 0,
        task_views(res@) == collecting(
            (Job { id: id@, files: file_views(files@), dictionaries: views(paths@) }),
        ),
{
    let ghost job = Job { id: id@, files: file_views(files@), dictionaries: views(paths@) };
    let n = files.len();
    let mut tasks: Vec<Task> = Vec::new();
    put(&mut tasks, Task::Log("步骤 1/7：第 1 次运行 RIME 用户资料同步。".to_owned()));
    put(&mut tasks, Task::RunSync);
    assert(task_views(tasks@) =~= seq![
        TaskView::Log("步骤 1/7：第 1 次运行 RIME 用户资料同步。"@),
        TaskView::RunSync,
    ]);
    put_gram(&mut tasks, files, Ghost(job));
    let ghost begun = task_views(tasks@);
    put(&mut tasks, Task::Progress(15));
    assert(task_views(tasks@) =~= begun + seq![TaskView::Progress(15)]);
    put_dictionaries(&mut tasks, paths, true);
    let ghost head = task_views(tasks@);
    let ghost all = Seq::new(job.files.len(), |i: int| TaskView::Collect(i));
    assert(head + all.take(0) =~= head);
    let mut i: usize = 0;
    while i < n
        invariant
            i <= n,
            n == all.len(),
            all == Seq::new(job.files.len(), |i: int| TaskView::Collect(i)),
            task_views(tasks@) == head + all.take(i as int),
        decreases n - i,
    {
        put(&mut tasks, Task::Collect(i));
        assert(all.take(i + 1) =~= all.take(i as int).push(TaskView::Collect(i as int)));
        assert(head + all.take(i as int).push(TaskView::Collect(i as int)) =~= (head + all.take(
            i as int,
        )).push(TaskView::Collect(i as int)));
        i = i + 1;
    }
    assert(all.take(n as int) =~= all);
    let mut line = counted("步骤 1/7：RIME 自带同步数据已生成，并复制 ", n, " 个自选文件到 Sync/");
    line.append(id);
    line.append("。");
    assert(line@ == collected_line(job));
    put(&mut tasks, Task::Log(line));
    put(&mut tasks, Task::Progress(25));
    put(&mut tasks, Task::ListRemote);
    assert(task_views(tasks@) =~= collecting(job));
    assert(task_views(tasks@).len() == tasks@.len());
    tasks
}

fn put_filling(tasks: &mut Vec<Task>, remote: usize)
    ensures
        task_views(final(tasks)@) == task_views(old(tasks)@) + filling(remote as nat),
{
    let ghost before = task_views(tasks@);
    if remote == 0 {
        put(tasks, Task::Log("步骤 2/7：WebDAV 远端为空，使用当前同步数据初始化。".to_owned()));
        put(tasks, Task::SeedMirror);
        put(tasks, Task::MarkMirror);
        put(tasks, Task::Upload);
        assert(task_views(tasks@) =~= before + filling(0));
    } else {
        put(tasks, Task::Log(counted("步骤 2/7：下载 WebDAV 文件: ", remote, " 个。")));
        let ghost head = task_views(tasks@);
        let ghost all = Seq::new(remote as nat, |i: int| TaskView::Download(i));
        assert(head + all.take(0) =~= head);
        let mut i: usize = 0;
        while i < remote
            invariant
                i <= remote,
                all == Seq::new(remote as nat, |i: int| TaskView::Download(i)),
                task_views(tasks@) == head + all.take(i as int),
            decreases remote - i,
        {
            put(tasks, Task::Download(i));
            assert(all.take(i + 1) =~= all.take(i as int).push(TaskView::Download(i as int)));
            assert(head + all.take(i as int).push(TaskView::Download(i as int)) =~= (head
                + all.take(i as int)).push(TaskView::Download(i as int)));
            i = i + 1;
        }
        assert(all.take(remote as int) =~= all);
        put(tasks, Task::MarkMirror);
        assert(task_views(tasks@) =~= before + filling(remote as nat));
    }
}

fn put_combines(tasks: &mut Vec<Task>, n: usize)
    ensures
        task_views(final(tasks)@) == task_views(old(tasks)@) + Seq::new(
            n as nat,
            |i: int| TaskView::Combine(i),
        ),
{
    let ghost head = task_views(tasks@);
    let ghost all = Seq::new(n as nat, |i: int| TaskView::Combine(i));
    assert(head + all.take(0) =~= head);
    let mut i: usize = 0;
    while i < n
        invariant
            i <= n,
            all == Seq::new(n as nat, |i: int| TaskView::Combine(i)),
            task_views(tasks@) == head + all.take(i as int),
        decreases n - i,
    {
        put(tasks, Task::Combine(i));
        assert(all.take(i + 1) =~= all.take(i as int).push(TaskView::Combine(i as int)));
        assert(head + all.take(i as int).push(TaskView::Combine(i as int)) =~= (head + all.take(
            i as int,
        )).push(TaskView::Combine(i as int)));
        i = i + 1;
    }
    assert(all.take(n as int) =~= all);
}

fn put_write_backs(tasks: &mut Vec<Task>, files: &Vec<SyncFile>)
    ensures
        task_views(final(tasks)@) == task_views(old(tasks)@) + write_backs(
            file_views(files@),
            files@.len() as int,
        ),
{
    let ghost head = task_views(tasks@);
    let ghost all = file_views(files@);
    assert(head + write_backs(all, 0) =~= head);
    let mut i: usize = 0;
    while i < files.len()
        invariant
            i <= files@.len(),
            all == file_views(files@),
            task_views(tasks@) == head + write_backs(all, i as int),
        decreases files@.len() - i,
    {
        assert(all[i as int] == files@[i as int]@);
        if files[i].writeback {
            put(tasks, Task::WriteBack(i));
            assert(head + write_backs(all, i as int).push(TaskView::WriteBack(i as int)) =~= (head
                + write_backs(all, i as int)).push(TaskView::WriteBack(i as int)));
        }
        i = i + 1;
    }
}

fn plan_mirroring(files: &Vec<SyncFile>, remote: usize, Ghost(job): Ghost<Job>) -> (res: Vec<Task>)
    requires
        job.files == file_views(files@),
    ensures
        res@.len() > 0,
        task_views(res@) == mirroring(job, remote as nat),
{
    let mut tasks: Vec<Task> = Vec::new();
    put(&mut tasks, Task::ResetMirror);
    assert(task_views(tasks@) =~= seq![TaskView::ResetMirror]);
    put_filling(&mut tasks, remote);
    let ghost filled = task_views(tasks@);
    put(
        &mut tasks,
        Task::Log("步骤 3/7：已确认本地文件夹与同步文件夹位于同一 Sync 根目录。".to_owned()),
    );
    put(&mut tasks, Task::Progress(45));
    put(&mut tasks, Task::Log("步骤 4/7：第 2 次运行 RIME 用户资料同步。".to_owned()));
    put(&mut tasks, Task::RunSync);
    assert(task_views(tasks@) =~= filled + seq![
        TaskView::Log("步骤 3/7：已确认本地文件夹与同步文件夹位于同一 Sync 根目录。"@),
        TaskView::Progress(45),
        TaskView::Log("步骤 4/7：第 2 次运行 RIME 用户资料同步。"@),
        TaskView::RunSync,
    ]);
    put_gram(&mut tasks, files, Ghost(job));
    let ghost dropped = task_views(tasks@);
    put(&mut tasks, Task::Progress(65));
    put(&mut tasks, Task::ListDictionaries);
    assert(task_views(tasks@) =~= dropped + seq![
        TaskView::Progress(65),
        TaskView::ListDictionaries,
    ]);
    assert(task_views(tasks@).len() == tasks@.len());
    tasks
}

fn plan_combining(files: &Vec<SyncFile>, merges: &Vec<String>, Ghost(job): Ghost<Job>) -> (res: Vec<
    Task,
>)
    requires
        job.files == file_views(files@),
    ensures
        res@.len() > 0,
        task_views(res@) == combining(job, views(merges@)),
{
    let n = files.len();
    let mut tasks: Vec<Task> = Vec::new();
    let ghost none = task_views(tasks@);
    put_dictionaries(&mut tasks, merges, false);
    let ghost merged = Seq::new(
        merges@.len(),
        |i: int| TaskView::MergeDictionary(views(merges@)[i]),
    );
    assert(task_views(tasks@) =~= merged);
    put_combines(&mut tasks, n);
    let ghost combined = task_views(tasks@);
    let line = counted("步骤 5/7：已按设置同步 ", n, " 个自选文件。");
    let ghost shown = line@;
    put(&mut tasks, Task::MarkMirror);
    put(&mut tasks, Task::Log(line));
    assert(task_views(tasks@) =~= combined + seq![TaskView::MarkMirror, TaskView::Log(shown)]);
    put_write_backs(&mut tasks, files);
    assert(task_views(tasks@).len() == tasks@.len());
    tasks
}

fn plan_finishing(written: usize) -> (res: Vec<Task>)
    ensures
        res@.len() > 0,
        task_views(res@) == finishing(written as nat),
{
    let mut tasks: Vec<Task> = Vec::new();
    put(&mut tasks, Task::Log(counted("步骤 5/7：已回写 ", written, " 个自选文件。")));
    put(&mut tasks, Task::Log("步骤 5/7：开始重新部署 RIME。".to_owned()));
    put(&mut tasks, Task::RunDeploy);
    put(&mut tasks, Task::Progress(80));
    put(&mut tasks, Task::Log("步骤 6/7：覆盖上传本地文件夹全部内容到 WebDAV。".to_owned()));
    put(&mut tasks, Task::Upload);
    put(&mut tasks, Task::Progress(95));
    put(
        &mut tasks,
        Task::Log("步骤 7/7：上传完成，清空本地文件夹和同步文件夹（保留目录）。".to_owned()),
    );
    put(&mut tasks, Task::ClearMirror);
    put(&mut tasks, Task::ClearDevice);
    put(&mut tasks, Task::Progress(100));
    put(&mut tasks, Task::Log("全部同步步骤已完成。".to_owned()));
    assert(task_views(tasks@) =~= finishing(written as nat));
    assert(task_views(tasks@).len() == tasks@.len());
    tasks
}

impl Task {
    /// A task that says the same.
    fn copy(&self) -> (res: Task)
        ensures
            res@ == self@,
    {
        match self {
            Task::Log(text) => Task::Log(text.clone()),
            Task::Progress(value) => Task::Progress(*value),
            Task::RunSync => Task::RunSync,
            Task::RunDeploy => Task::RunDeploy,
            Task::DropGram => Task::DropGram,
            Task::CollectDictionary(path) => Task::CollectDictionary(path.clone()),
            Task::Collect(i) => Task::Collect(*i),
            Task::ListRemote => Task::ListRemote,
            Task::ResetMirror => Task::ResetMirror,
            Task::SeedMirror => Task::SeedMirror,
            Task::Download(i) => Task::Download(*i),
            Task::MarkMirror => Task::MarkMirror,
            Task::Upload => Task::Upload,
            Task::ListDictionaries => Task::ListDictionaries,
            Task::MergeDictionary(path) => Task::MergeDictionary(path.clone()),
            Task::Combine(i) => Task::Combine(*i),
            Task::WriteBack(i) => Task::WriteBack(*i),
            Task::ClearMirror => Task::ClearMirror,
            Task::ClearDevice => Task::ClearDevice,
        }
    }
}

/// A step from which the run can go on.
pub open spec fn wf_step(step: Step) -> bool {
    step matches Step::Do(run, _) ==> run.wf()
}

/// Starts a run for the device with the given id and selected files. `found` holds the
/// paths of the files below the dictionary folders of the user folder.
pub fn run(id: String, files: Vec<SyncFile>, found: Vec<String>) -> (res: Step)
    ensures
        wf_step(res),
        res@ == started(job_for(id@, file_views(files@), views(found@))),
{
    let dictionaries = choose_dictionaries(&found, &files);
    let tasks = plan_collecting(id.as_str(), &files, &dictionaries);
    assert(task_views(tasks@)[0] == tasks@[0]@);
    let task = tasks[0].copy();
    let merges: Vec<String> = Vec::new();
    assert(views(merges@) =~= Seq::<Seq<char>>::empty());
    Step::Do(
        Run {
            id,
            files,
            dictionaries,
            stage: Stage::Collecting,
            remote: 0,
            merges,
            written: 0,
            tasks,
            at: 0,
        },
        task,
    )
}

proof fn lemma_write_backs(files: Seq<SyncFileView>, n: int)
    ensures
        forall|i: int| 0 <= i < write_backs(files, n).len() ==> #[trigger] write_backs(files, n)[i]
            is WriteBack,
    decreases n,
{
    if n > 0 {
        lemma_write_backs(files, n - 1);
    }
}

/// Files are written back in one part of a run only.
proof fn lemma_only_combining_writes_back(run: RunView)
    requires
        0 <= run.at < stage_tasks(run).len(),
    ensures
        current(run) is WriteBack ==> run.stage is Combining,
{
}

/// The work of a run is done when the device folder is emptied.
proof fn lemma_work_done(run: RunView)
    requires
        0 <= run.at < stage_tasks(run).len(),
    ensures
        work_done(run) <==> run.stage is Finishing && run.at + 3 >= stage_tasks(run).len(),
{
    if run.stage is Finishing {
        let all = stage_tasks(run);
        assert(all.len() == 12);
        assert(all[9] is ClearDevice);
        assert(is_report(all[10]) && is_report(all[11]));
        if run.at < 9 {
            assert(!is_report(all[9]));
        }
    }
}

impl Run {
    /// Goes on after the outcome of the current task; `stopped` tells whether the user has
    /// asked for a stop.
    pub fn next(self, outcome: Outcome, stopped: bool) -> (res: Step)
        requires
            self.wf(),
        ensures
            wf_step(res),
            res@ == next_step(self@, outcome@, stopped),
    {
        let Run { id, files, dictionaries, stage, remote, merges, written, tasks, at } = self;
        let ghost job = Job {
            id: id@,
            files: file_views(files@),
            dictionaries: views(dictionaries@),
        };
        let n = tasks.len();
        assert(task_views(tasks@).len() == n);
        assert(task_views(tasks@)[at as int] == tasks@[at as int]@);
        let report = match &tasks[at] {
            Task::Log(_) => true,
            Task::Progress(_) => true,
            _ => false,
        };
        let mut count: usize = 0;
        let mut found: Vec<String> = Vec::new();
        assert(views(found@) =~= Seq::<Seq<char>>::empty());
        if !report {
            match outcome {
                Outcome::Failed(e) => {
                    return Step::Failed(e);
                },
                Outcome::Done(number) => {
                    count = number;
                },
                Outcome::Found(list) => {
                    count = list.len();
                    found = list;
                },
            }
        }
        let ghost success = settled(self@, outcome@);
        assert(count == count_of(success) && views(found@) == found_of(success));
        let finishing = match stage {
            Stage::Finishing => true,
            _ => false,
        };
        if finishing && at + 1 == n {
            return Step::Finished;
        }
        proof {
            lemma_work_done(self@);
        }
        if stopped && !(finishing && n - at <= 3) {
            return Step::Failed(SyncError::Stopped);
        }
        let copied = match &tasks[at] {
            Task::WriteBack(_) => count > 0,
            _ => false,
        };
        proof {
            lemma_only_combining_writes_back(self@);
        }
        assert(copied ==> stage is Combining);
        let written = if copied {
            written + 1
        } else {
            written
        };
        if at + 1 < n {
            assert(task_views(tasks@)[at + 1] == tasks@[at + 1]@);
            let task = tasks[at + 1].copy();
            return Step::Do(
                Run {
                    id,
                    files,
                    dictionaries,
                    stage,
                    remote,
                    merges,
                    written,
                    tasks,
                    at: at + 1,
                },
                task,
            );
        }
        let (stage, remote, merges, tasks) = match stage {
            Stage::Collecting => {
                let tasks = plan_mirroring(&files, count, Ghost(job));
                (Stage::Mirroring, count, merges, tasks)
            },
            Stage::Mirroring => {
                let merges = choose_dictionaries(&found, &files);
                let tasks = plan_combining(&files, &merges, Ghost(job));
                (Stage::Combining, remote, merges, tasks)
            },
            _ => (Stage::Finishing, remote, merges, plan_finishing(written)),
        };
        assert(task_views(tasks@)[0] == tasks@[0]@);
        let task = tasks[0].copy();
        Step::Do(
            Run { id, files, dictionaries, stage, remote, merges, written, tasks, at: 0 },
            task,
        )
    }
}

/// How a run stands after a list of outcomes, each with whether a stop was asked for by
/// then.
pub open spec fn after(job: Job, events: Seq<(OutcomeView, bool)>) -> StepView
    decreases events.len(),
{
    if events.len() == 0 {
        started(job)
    } else {
        match after(job, events.drop_last()) {
            StepView::Do(run, _) => next_step(run, events.last().0, events.last().1),
            ended => ended,
        }
    }
}

/// The place of a run's current task among all its tasks.
pub open spec fn place(run: RunView) -> int {
    let course = run.course;
    let a = collecting(course.job).len();
    let b = mirroring(course.job, course.remote).len();
    match run.stage {
        Stage::Collecting => run.at,
        Stage::Mirroring => a + run.at,
        Stage::Combining => a + b + run.at,
        Stage::Finishing => a + b + combining(course.job, course.merges).len() + run.at,
    }
}

/// Which tasks the parts of a run do not hold.
proof fn lemma_stages(course: Course)
    ensures
        collecting(course.job).len() > 0,
        mirroring(course.job, course.remote).len() > 0,
        combining(course.job, course.merges).len() > 0,
        finishing(course.written).len() == 12,
        forall|i: int|
            0 <= i < collecting(course.job).len() ==> {
                let task = #[trigger] collecting(course.job)[i];
                !(task is Upload || task is ClearMirror || task is ClearDevice || task is WriteBack
                    || task is Combine || task is MergeDictionary || task is RunDeploy
                    || task is Download || task is SeedMirror || task is ResetMirror)
            },
        forall|i: int|
            0 <= i < mirroring(course.job, course.remote).len() ==> {
                let task = #[trigger] mirroring(course.job, course.remote)[i];
                !(task is ClearMirror || task is ClearDevice || task is RunDeploy || task is WriteBack
                    || task is Combine || task is MergeDictionary || task is Collect
                    || task is CollectDictionary)
            },
        forall|i: int|
            0 <= i < combining(course.job, course.merges).len() ==> {
                let task = #[trigger] combining(course.job, course.merges)[i];
                task is MergeDictionary || task is Combine || task is MarkMirror || task is Log
                    || task is WriteBack
            },
{
    let job = course.job;
    lemma_write_backs(job.files, job.files.len() as int);
    let backs = write_backs(job.files, job.files.len() as int);
    let third = combining(job, course.merges);
    let n = third.len() - backs.len();
    assert forall|i: int| 0 <= i < third.len() implies {
        let task = #[trigger] third[i];
        task is MergeDictionary || task is Combine || task is MarkMirror || task is Log
            || task is WriteBack
    } by {
        if i >= n {
            assert(third[i] == backs[i - n]);
            assert(backs[i - n] is WriteBack);
        }
    }
}

/// What holds of a run that waits for a task.
proof fn lemma_after(job: Job, events: Seq<(OutcomeView, bool)>)
    requires
        after(job, events) is Do,
    ensures
        ({
            let run = after(job, events)->Do_0;
            &&& run.course.job == job
            &&& after(job, events)->Do_1 == current(run)
            &&& 0 <= run.at < stage_tasks(run).len()
            &&& place(run) == events.len()
        }),
        events.len() > 0 ==> {
            &&& after(job, events.drop_last()) matches StepView::Do(before, task)
            &&& is_report(task) || !(events.last().0 is Failed)
            &&& events.last().1 ==> work_done(before)
        },
    decreases events.len(),
{
    if events.len() == 0 {
        lemma_stages(Course { job, remote: 0, merges: Seq::empty(), written: 0 });
    } else {
        lemma_after(job, events.drop_last());
        let before = after(job, events.drop_last())->Do_0;
        let run = after(job, events)->Do_0;
        lemma_stages(run.course);
        lemma_stages(before.course);
    }
}

/// The tasks that were handed out until the last of the outcomes, in their order.
pub open spec fn handed(job: Job, events: Seq<(OutcomeView, bool)>) -> Seq<TaskView>
    decreases events.len(),
{
    let before = if events.len() == 0 {
        Seq::empty()
    } else {
        handed(job, events.drop_last())
    };
    match after(job, events) {
        StepView::Do(_, task) => before.push(task),
        _ => before,
    }
}

/// A script up to a place in one of its parts does not depend on what later parts count.
proof fn lemma_script_take(course: Course)
    ensures
        ({
            let a = collecting(course.job);
            let b = mirroring(course.job, course.remote);
            let c = combining(course.job, course.merges);
            let all = script(course);
            &&& all.len() == a.len() + b.len() + c.len() + 12
            &&& all.take(a.len() as int) == a
            &&& all.take((a.len() + b.len()) as int) == a + b
            &&& all.take((a.len() + b.len() + c.len()) as int) == a + b + c
        }),
{
    let a = collecting(course.job);
    let b = mirroring(course.job, course.remote);
    let c = combining(course.job, course.merges);
    let all = script(course);
    assert(finishing(course.written).len() == 12);
    assert(all.take(a.len() as int) =~= a);
    assert(all.take((a.len() + b.len()) as int) =~= a + b);
    assert(all.take((a.len() + b.len() + c.len()) as int) =~= a + b + c);
}

/// The place of a task in the script, by its part.
proof fn lemma_script_at(run: RunView)
    requires
        0 <= run.at < stage_tasks(run).len(),
    ensures
        place(run) < script(run.course).len(),
        script(run.course)[place(run)] == current(run),
{
    lemma_stages(run.course);
}

/// What was handed out while a run goes on is the script up to the current task.
#[verifier::rlimit(40)]
proof fn lemma_handed(job: Job, events: Seq<(OutcomeView, bool)>)
    requires
        after(job, events) is Do,
    ensures
        ({
            let all = script(after(job, events)->Do_0.course);
            &&& events.len() < all.len()
            &&& handed(job, events) == all.take(events.len() as int + 1)
        }),
    decreases events.len(),
{
    lemma_after(job, events);
    let run = after(job, events)->Do_0;
    let all = script(run.course);
    lemma_script_at(run);
    let n = events.len() as int;
    if n == 0 {
        assert(all.take(1) =~= Seq::<TaskView>::empty().push(all[0]));
    } else {
        let init = events.drop_last();
        lemma_handed(job, init);
        lemma_after(job, init);
        lemma_same_beginning(after(job, init)->Do_0, settled(after(job, init)->Do_0, events.last().0));
        assert(all.take(n + 1) =~= all.take(n).push(all[n]));
    }
}

/// What a run learns from an outcome changes nothing in the script up to its task.
proof fn lemma_same_beginning(before: RunView, outcome: OutcomeView)
    requires
        0 <= before.at < stage_tasks(before).len(),
        !is_last(before),
    ensures
        ({
            let n = place(before) + 1;
            let (earlier, all) = (script(before.course), script(advanced(before, outcome).course));
            n <= earlier.len() && n <= all.len() && earlier.take(n) == all.take(n)
        }),
{
    let run = advanced(before, outcome);
    let (earlier, all) = (script(before.course), script(run.course));
    let n = place(before) + 1;
    let job = before.course.job;
    lemma_stages(before.course);
    lemma_script_take(before.course);
    lemma_script_take(run.course);
    let a = collecting(job).len() as int;
    let b = mirroring(job, before.course.remote).len() as int;
    let c = combining(job, before.course.merges).len() as int;
    if before.stage is Collecting {
        assert(earlier.take(n) =~= earlier.take(a).take(n));
        assert(all.take(n) =~= all.take(a).take(n));
    } else if before.stage is Mirroring {
        assert(earlier.take(n) =~= earlier.take(a + b).take(n));
        assert(all.take(n) =~= all.take(a + b).take(n));
    } else if before.stage is Combining {
        assert(earlier.take(n) =~= earlier.take(a + b + c).take(n));
        assert(all.take(n) =~= all.take(a + b + c).take(n));
    } else {
        assert(!(current(before) is WriteBack));
        assert(run.course == before.course);
    }
}

/// The tasks come in the order of the script, one for each outcome before. None of these
/// was a failure, reports aside, and no stop was asked for while there was something
/// left to do.
#[verifier::rlimit(40)]
pub proof fn law_tasks_follow_the_script(job: Job, events: Seq<(OutcomeView, bool)>)
    requires
        after(job, events) is Do,
    ensures
        ({
            let all = script(after(job, events)->Do_0.course);
            &&& events.len() < all.len()
            &&& after(job, events)->Do_1 == all[events.len() as int]
            &&& handed(job, events) == all.take(events.len() as int + 1)
            &&& forall|k: int|
                #![trigger events[k]]
                0 <= k < events.len() ==> (is_report(all[k]) || !(events[k].0 is Failed)) && (
                events[k].1 ==> k + 3 >= all.len())
        }),
    decreases events.len(),
{
    lemma_after(job, events);
    lemma_handed(job, events);
    let run = after(job, events)->Do_0;
    let all = script(run.course);
    lemma_stages(run.course);
    lemma_script_at(run);
    if events.len() > 0 {
        let init = events.drop_last();
        let before = after(job, init)->Do_0;
        let earlier = script(before.course);
        law_tasks_follow_the_script(job, init);
        lemma_after(job, init);
        lemma_work_done(before);
        lemma_stages(before.course);
        lemma_script_take(before.course);
        lemma_script_take(run.course);
        assert(handed(job, events).take(events.len() as int) =~= handed(job, init));
        assert forall|k: int| 0 <= k < events.len() implies all[k] == #[trigger] earlier[k] by {
            assert(handed(job, events)[k] == all[k]);
            assert(handed(job, init)[k] == earlier[k]);
        }
        assert forall|k: int|
            #![trigger events[k]]
            0 <= k < events.len() implies (is_report(all[k]) || !(events[k].0 is Failed)) && (
        events[k].1 ==> k + 3 >= all.len()) by {
            assert(all[k] == earlier[k]);
            if k < init.len() {
                assert(init[k] == events[k]);
                if events[k].1 {
                    assert(k + 3 >= earlier.len());
                    assert(before.stage is Finishing) by {
                        assert(place(before) == init.len());
                    }
                }
            }
        }
    }
}

/// A run that is complete has handed out every task of its script, and has had no
/// failure, reports aside.
pub proof fn law_complete_run_did_everything(job: Job, events: Seq<(OutcomeView, bool)>)
    requires
        after(job, events) is Finished,
        events.len() > 0,
        after(job, events.drop_last()) is Do,
    ensures
        ({
            let all = script(after(job, events.drop_last())->Do_0.course);
            &&& events.len() == all.len()
            &&& handed(job, events) == all
            &&& forall|k: int|
                #![trigger events[k]]
                0 <= k < events.len() ==> is_report(all[k]) || !(events[k].0 is Failed)
        }),
{
    let init = events.drop_last();
    lemma_after(job, init);
    law_tasks_follow_the_script(job, init);
    let run = after(job, init)->Do_0;
    let all = script(run.course);
    lemma_stages(run.course);
    assert(all.take(events.len() as int) =~= all);
    assert forall|k: int|
        #![trigger events[k]]
        0 <= k < events.len() implies is_report(all[k]) || !(events[k].0 is Failed) by {
        if k < init.len() {
            assert(init[k] == events[k]);
        } else {
            assert(all[k] == current(run));
        }
    }
}

/// What has been handed out is always the beginning of a script: all of it once the run
/// is complete, and if the run has failed, at most up to where the device folder is
/// emptied.
#[verifier::rlimit(40)]
proof fn lemma_handed_always(job: Job, events: Seq<(OutcomeView, bool)>) -> (res: (Course, int))
    ensures
        ({
            let all = script(res.0);
            let n = res.1;
            &&& res.0.job == job
            &&& 0 < n <= all.len()
            &&& handed(job, events) == all.take(n)
            &&& after(job, events) is Finished ==> n == all.len()
            &&& after(job, events) is Failed ==> n + 2 <= all.len()
        }),
    decreases events.len(),
{
    if after(job, events) is Do {
        lemma_handed(job, events);
        lemma_after(job, events);
        let run = after(job, events)->Do_0;
        (run.course, events.len() as int + 1)
    } else {
        let init = events.drop_last();
        let res = lemma_handed_always(job, init);
        if after(job, init) is Do {
            lemma_handed(job, init);
            lemma_after(job, init);
            let run = after(job, init)->Do_0;
            lemma_stages(run.course);
            lemma_script_take(run.course);
            lemma_script_at(run);
            lemma_work_done(run);
            if after(job, events) is Failed {
                assert(!work_done(run) || !is_report(current(run)));
                if run.stage is Finishing {
                    assert(is_report(finishing(run.course.written)[10]));
                    assert(is_report(finishing(run.course.written)[11]));
                    assert(run.at <= 9);
                }
            }
            (run.course, events.len() as int)
        } else {
            res
        }
    }
}

/// The failure of a task ends the run with this failure, and no later outcome makes it
/// hand out anything more.
pub proof fn law_failure_ends_the_run(
    job: Job,
    events: Seq<(OutcomeView, bool)>,
    fault: Fault,
    stopped: bool,
    more: Seq<(OutcomeView, bool)>,
)
    requires
        after(job, events) matches StepView::Do(_, task) && !is_report(task),
    ensures
        ({
            let ended = events.push((OutcomeView::Failed(fault), stopped)) + more;
            &&& after(job, ended) == StepView::Failed(fault)
            &&& handed(job, ended) == handed(job, events)
        }),
    decreases more.len(),
{
    let failed = events.push((OutcomeView::Failed(fault), stopped));
    let ended = failed + more;
    if more.len() == 0 {
        lemma_after(job, events);
        assert(ended =~= failed);
        assert(failed.drop_last() =~= events);
    } else {
        law_failure_ends_the_run(job, events, fault, stopped, more.drop_last());
        assert(ended.drop_last() =~= failed + more.drop_last());
    }
}

/// The tasks that show how far the run is.
pub open spec fn shows_progress() -> spec_fn(TaskView) -> bool {
    |task: TaskView| task is Progress
}

/// The tasks that ask RIME for something.
pub open spec fn is_command() -> spec_fn(TaskView) -> bool {
    |task: TaskView| task is RunSync || task is RunDeploy
}

/// The tasks that tell the user something.
pub open spec fn tells_user() -> spec_fn(TaskView) -> bool {
    |task: TaskView| is_report(task)
}

/// How far the run is, each time that a task shows it.
pub open spec fn progress_of(tasks: Seq<TaskView>) -> Seq<TaskView> {
    tasks.filter(shows_progress())
}

/// What RIME is asked to do.
pub open spec fn commands_of(tasks: Seq<TaskView>) -> Seq<TaskView> {
    tasks.filter(is_command())
}

/// What a whole run shows of how far it is.
pub open spec fn whole_progress() -> Seq<TaskView> {
    seq![
        TaskView::Progress(15),
        TaskView::Progress(25),
        TaskView::Progress(45),
        TaskView::Progress(65),
        TaskView::Progress(80),
        TaskView::Progress(95),
        TaskView::Progress(100),
    ]
}

/// What a whole run asks RIME to do.
pub open spec fn whole_commands() -> Seq<TaskView> {
    seq![TaskView::RunSync, TaskView::RunSync, TaskView::RunDeploy]
}

/// Nothing is picked where nothing fits.
proof fn lemma_none_picked(tasks: Seq<TaskView>, keep: spec_fn(TaskView) -> bool)
    requires
        forall|i: int| 0 <= i < tasks.len() ==> !keep(#[trigger] tasks[i]),
    ensures
        tasks.filter(keep) == Seq::<TaskView>::empty(),
    decreases tasks.len(),
{
    reveal(Seq::filter);
    if tasks.len() > 0 {
        let init = tasks.drop_last();
        assert forall|i: int| 0 <= i < init.len() implies !keep(#[trigger] init[i]) by {
            assert(init[i] == tasks[i]);
        }
        lemma_none_picked(init, keep);
        assert(!keep(tasks[tasks.len() - 1]));
    }
}

/// What fits is picked.
proof fn lemma_kept(tasks: Seq<TaskView>, i: int, keep: spec_fn(TaskView) -> bool)
    requires
        0 <= i < tasks.len(),
        keep(tasks[i]),
    ensures
        tasks.filter(keep).contains(tasks[i]),
    decreases tasks.len(),
{
    reveal(Seq::filter);
    let init = tasks.drop_last();
    let picked = tasks.filter(keep);
    if i < init.len() {
        lemma_kept(init, i, keep);
        let before = init.filter(keep);
        let j = choose|j: int| 0 <= j < before.len() && before[j] == init[i];
        assert(picked[j] == tasks[i]);
    } else {
        assert(picked[picked.len() - 1] == tasks[i]);
    }
}

/// Of a single fitting task, that task is picked.
proof fn lemma_one_picked(task: TaskView, keep: spec_fn(TaskView) -> bool)
    requires
        keep(task),
    ensures
        seq![task].filter(keep) == seq![task],
{
    reveal_with_fuel(Seq::filter, 2);
    assert(seq![task].drop_last() =~= Seq::<TaskView>::empty());
    assert(Seq::<TaskView>::empty().push(task) =~= seq![task]);
}

/// What is picked from a beginning is the beginning of what is picked.
proof fn lemma_picked_take(tasks: Seq<TaskView>, n: int, keep: spec_fn(TaskView) -> bool)
    requires
        0 <= n <= tasks.len(),
    ensures
        tasks.filter(keep) == tasks.take(n).filter(keep) + tasks.skip(n).filter(keep),
{
    Seq::filter_distributes_over_add(tasks.take(n), tasks.skip(n), keep);
    assert(tasks.take(n) + tasks.skip(n) =~= tasks);
}

/// Where one task alone fits, it is picked.
proof fn lemma_picked_once(tasks: Seq<TaskView>, p: int, keep: spec_fn(TaskView) -> bool)
    requires
        0 <= p < tasks.len(),
        keep(tasks[p]),
        forall|i: int| 0 <= i < tasks.len() && i != p ==> !keep(#[trigger] tasks[i]),
    ensures
        tasks.filter(keep) == seq![tasks[p]],
{
    let (before, behind) = (tasks.take(p), tasks.skip(p + 1));
    let one = seq![tasks[p]];
    lemma_none_picked(before, keep);
    lemma_none_picked(behind, keep);
    lemma_one_picked(tasks[p], keep);
    Seq::filter_distributes_over_add(before, one, keep);
    Seq::filter_distributes_over_add(before + one, behind, keep);
    assert(before + one + behind =~= tasks);
    assert(Seq::<TaskView>::empty() + one + Seq::<TaskView>::empty() =~= one);
}

/// Where two tasks alone fit, they are picked.
proof fn lemma_picked_twice(tasks: Seq<TaskView>, p: int, q: int, keep: spec_fn(TaskView) -> bool)
    requires
        0 <= p < q < tasks.len(),
        keep(tasks[p]),
        keep(tasks[q]),
        forall|i: int| 0 <= i < tasks.len() && i != p && i != q ==> !keep(#[trigger] tasks[i]),
    ensures
        tasks.filter(keep) == seq![tasks[p], tasks[q]],
{
    let (before, behind) = (tasks.take(q), tasks.skip(q));
    assert forall|i: int| 0 <= i < behind.len() && i != 0 implies !keep(#[trigger] behind[i]) by {
        assert(behind[i] == tasks[i + q]);
    }
    lemma_picked_once(before, p, keep);
    lemma_picked_once(behind, 0, keep);
    lemma_picked_take(tasks, q, keep);
    assert(seq![tasks[p]] + seq![tasks[q]] =~= seq![tasks[p], tasks[q]]);
}

/// Of three parts, what is picked from each comes in their order.
proof fn lemma_picked_three(
    a: Seq<TaskView>,
    b: Seq<TaskView>,
    c: Seq<TaskView>,
    keep: spec_fn(TaskView) -> bool,
)
    ensures
        (a + b + c).filter(keep) == a.filter(keep) + b.filter(keep) + c.filter(keep),
{
    Seq::filter_distributes_over_add(a, b, keep);
    Seq::filter_distributes_over_add(a + b, c, keep);
}

/// Where the second part of a run has its reports and its command.
#[verifier::rlimit(40)]
proof fn lemma_mirroring_places(job: Job, remote: nat)
    ensures
        ({
            let second = mirroring(job, remote);
            let m = filling(remote).len() as int;
            let g = gram_tasks(job).len() as int;
            &&& second.len() == 7 + m + g
            &&& second[2 + m] == TaskView::Progress(45)
            &&& second[4 + m] == TaskView::RunSync
            &&& second[5 + m + g] == TaskView::Progress(65)
            &&& forall|i: int|
                0 <= i < second.len() && #[trigger] second[i] is Progress ==> i == 2 + m || i == 5
                    + m + g
            &&& forall|i: int|
                0 <= i < second.len() && is_command()(#[trigger] second[i]) ==> i == 4 + m
            &&& forall|i: int|
                0 <= i < second.len() && (#[trigger] second[i] is Download || second[i]
                    is SeedMirror || second[i] is ResetMirror) ==> i < 4 + m
        }),
{
    let second = mirroring(job, remote);
    let m = filling(remote).len() as int;
    let g = gram_tasks(job).len() as int;
    assert forall|i: int| 1 <= i < 1 + m implies #[trigger] second[i] == filling(remote)[i - 1] by {}
    assert forall|i: int| 5 + m <= i < 5 + m + g implies #[trigger] second[i] is DropGram by {}
}

/// What the parts of a run show of how far it is.
#[verifier::rlimit(40)]
proof fn lemma_part_progress(course: Course)
    ensures
        progress_of(collecting(course.job)) == seq![TaskView::Progress(15), TaskView::Progress(25)],
        progress_of(mirroring(course.job, course.remote)) == seq![
            TaskView::Progress(45),
            TaskView::Progress(65),
        ],
        progress_of(combining(course.job, course.merges)) == Seq::<TaskView>::empty(),
        progress_of(finishing(course.written)) == seq![
            TaskView::Progress(80),
            TaskView::Progress(95),
            TaskView::Progress(100),
        ],
{
    let keep = shows_progress();
    let job = course.job;
    let m = filling(course.remote).len() as int;
    let g = gram_tasks(job).len() as int;
    let first = collecting(job);
    lemma_picked_twice(first, 2 + g, first.len() - 2, keep);
    lemma_mirroring_places(job, course.remote);
    lemma_picked_twice(mirroring(job, course.remote), 2 + m, 5 + m + g, keep);
    lemma_stages(course);
    lemma_none_picked(combining(job, course.merges), keep);
    let third = finishing(course.written);
    lemma_picked_take(third, 7, keep);
    lemma_picked_twice(third.take(7), 3, 6, keep);
    lemma_picked_once(third.skip(7), 3, keep);
    assert(third.skip(7)[3] == third[10]);
    assert(seq![TaskView::Progress(80), TaskView::Progress(95)] + seq![TaskView::Progress(100)]
        =~= seq![TaskView::Progress(80), TaskView::Progress(95), TaskView::Progress(100)]);
}

/// Of four parts, what is picked from each comes in their order.
proof fn lemma_picked_four(course: Course, keep: spec_fn(TaskView) -> bool)
    ensures
        script(course).filter(keep) == collecting(course.job).filter(keep) + mirroring(
            course.job,
            course.remote,
        ).filter(keep) + combining(course.job, course.merges).filter(keep) + finishing(
            course.written,
        ).filter(keep),
{
    let (a, b) = (collecting(course.job), mirroring(course.job, course.remote));
    let (c, d) = (combining(course.job, course.merges), finishing(course.written));
    lemma_picked_three(a, b, c, keep);
    Seq::filter_distributes_over_add(a + b + c, d, keep);
}

/// What a script shows of how far it is.
proof fn lemma_script_progress(course: Course)
    ensures
        progress_of(script(course)) == whole_progress(),
{
    lemma_part_progress(course);
    lemma_picked_four(course, shows_progress());
    assert(progress_of(collecting(course.job)) + progress_of(mirroring(course.job, course.remote))
        + progress_of(combining(course.job, course.merges)) + progress_of(
        finishing(course.written),
    ) =~= whole_progress());
}

/// The user sees how far the run is in one order, the whole of it exactly when the run
/// succeeds: a run that has failed or was stopped never shows a hundred. Before its
/// first task a run is shown at 0.
#[verifier::rlimit(40)]
pub proof fn law_progress_tells_success(job: Job, events: Seq<(OutcomeView, bool)>)
    ensures
        ({
            let shown = seq![TaskView::Progress(0)] + progress_of(handed(job, events));
            let whole = seq![TaskView::Progress(0)] + whole_progress();
            &&& shown.len() <= whole.len()
            &&& shown == whole.take(shown.len() as int)
            &&& after(job, events) is Finished ==> shown == whole
            &&& after(job, events) is Failed ==> shown.len() < whole.len()
                && !handed(job, events).contains(TaskView::Progress(100))
        }),
{
    let (course, n) = lemma_handed_always(job, events);
    let all = script(course);
    lemma_script_progress(course);
    lemma_script_take(course);
    lemma_picked_take(all, n, shows_progress());
    let picked = progress_of(all.take(n));
    let rest = progress_of(all.skip(n));
    assert(whole_progress() == picked + rest);
    let shown = seq![TaskView::Progress(0)] + picked;
    let whole = seq![TaskView::Progress(0)] + whole_progress();
    assert(shown =~= whole.take(shown.len() as int));
    if after(job, events) is Finished {
        assert(all.take(n) =~= all);
    }
    if after(job, events) is Failed {
        let k = all.len() - 2;
        assert(all[k] == finishing(course.written)[10]);
        assert(all.skip(n)[k - n] == TaskView::Progress(100));
        lemma_kept(all.skip(n), k - n, shows_progress());
        if handed(job, events).contains(TaskView::Progress(100)) {
            let i = choose|i: int|
                0 <= i < all.take(n).len() && all.take(n)[i] == TaskView::Progress(100);
            lemma_kept(all.take(n), i, shows_progress());
            let j = choose|j: int| 0 <= j < picked.len() && picked[j] == TaskView::Progress(100);
            assert(whole_progress()[j] == picked[j]);
            assert(j == 6);
        }
    }
}

/// What the parts of a script ask RIME to do.
#[verifier::rlimit(40)]
proof fn lemma_script_commands(course: Course)
    ensures
        commands_of(collecting(course.job)) == seq![TaskView::RunSync],
        commands_of(mirroring(course.job, course.remote)) == seq![TaskView::RunSync],
        commands_of(combining(course.job, course.merges)) == Seq::<TaskView>::empty(),
        commands_of(finishing(course.written)) == seq![TaskView::RunDeploy],
        commands_of(script(course)) == whole_commands(),
{
    let keep = is_command();
    let (first, second) = (collecting(course.job), mirroring(course.job, course.remote));
    let (third, fourth) = (combining(course.job, course.merges), finishing(course.written));
    lemma_picked_once(first, 1, keep);
    lemma_mirroring_places(course.job, course.remote);
    lemma_picked_once(second, 4 + filling(course.remote).len() as int, keep);
    lemma_stages(course);
    lemma_none_picked(third, keep);
    lemma_picked_once(fourth, 2, keep);
    lemma_picked_four(course, keep);
    assert(seq![TaskView::RunSync] + seq![TaskView::RunSync] + Seq::<TaskView>::empty() + seq![
        TaskView::RunDeploy,
    ] =~= whole_commands());
}

/// A run asks RIME to synchronise, to synchronise again and to deploy, in this order and
/// nothing else; a complete run has asked for all three.
pub proof fn law_commands_come_in_order(job: Job, events: Seq<(OutcomeView, bool)>)
    ensures
        ({
            let asked = commands_of(handed(job, events));
            &&& asked.len() <= 3
            &&& asked == whole_commands().take(asked.len() as int)
            &&& after(job, events) is Finished ==> asked == whole_commands()
        }),
{
    let (course, n) = lemma_handed_always(job, events);
    let all = script(course);
    lemma_script_commands(course);
    lemma_picked_take(all, n, is_command());
    let asked = commands_of(all.take(n));
    assert(whole_commands() == asked + commands_of(all.skip(n)));
    assert(asked =~= whole_commands().take(asked.len() as int));
    if after(job, events) is Finished {
        assert(all.take(n) =~= all);
    }
}

/// What RIME was asked to do before a task of the first part of a run.
proof fn lemma_commands_collecting(job: Job, j: int)
    requires
        0 <= j < collecting(job).len(),
        collecting(job)[j] is Collect || collecting(job)[j] is CollectDictionary,
    ensures
        commands_of(collecting(job).take(j)) == seq![TaskView::RunSync],
{
    assert(j > 1);
    lemma_picked_once(collecting(job).take(j), 1, is_command());
}

/// What RIME was asked to do before a task of the second part of a run that fills the
/// mirror.
proof fn lemma_commands_mirroring(course: Course, j: int)
    requires
        ({
            let second = mirroring(course.job, course.remote);
            0 <= j < second.len() && (second[j] is Download || second[j] is SeedMirror || second[j]
                is ResetMirror)
        }),
    ensures
        commands_of(collecting(course.job) + mirroring(course.job, course.remote).take(j))
            == seq![TaskView::RunSync],
{
    let keep = is_command();
    let second = mirroring(course.job, course.remote);
    lemma_script_commands(course);
    lemma_mirroring_places(course.job, course.remote);
    Seq::filter_distributes_over_add(collecting(course.job), second.take(j), keep);
    lemma_none_picked(second.take(j), keep);
    assert(seq![TaskView::RunSync] + Seq::<TaskView>::empty() =~= seq![TaskView::RunSync]);
}

/// What RIME was asked to do before a task of the third part of a run.
proof fn lemma_commands_combining(course: Course, j: int)
    requires
        0 <= j < combining(course.job, course.merges).len(),
    ensures
        commands_of(
            collecting(course.job) + mirroring(course.job, course.remote) + combining(
                course.job,
                course.merges,
            ).take(j),
        ) == seq![TaskView::RunSync, TaskView::RunSync],
{
    let keep = is_command();
    let third = combining(course.job, course.merges);
    lemma_script_commands(course);
    lemma_stages(course);
    lemma_picked_three(
        collecting(course.job),
        mirroring(course.job, course.remote),
        third.take(j),
        keep,
    );
    lemma_none_picked(third.take(j), keep);
    assert(seq![TaskView::RunSync] + seq![TaskView::RunSync] + Seq::<TaskView>::empty() =~= seq![
        TaskView::RunSync,
        TaskView::RunSync,
    ]);
}

/// What RIME was asked to do before the folders are emptied.
proof fn lemma_commands_finishing(course: Course, j: int)
    requires
        8 <= j <= 9,
    ensures
        commands_of(
            collecting(course.job) + mirroring(course.job, course.remote) + combining(
                course.job,
                course.merges,
            ) + finishing(course.written).take(j),
        ) == whole_commands(),
{
    let keep = is_command();
    let (a, b) = (collecting(course.job), mirroring(course.job, course.remote));
    let c = combining(course.job, course.merges);
    let last = finishing(course.written).take(j);
    lemma_script_commands(course);
    lemma_picked_three(a, b, c, keep);
    Seq::filter_distributes_over_add(a + b + c, last, keep);
    lemma_picked_once(last, 2, keep);
    assert(seq![TaskView::RunSync] + seq![TaskView::RunSync] + Seq::<TaskView>::empty() + seq![
        TaskView::RunDeploy,
    ] =~= whole_commands());
}

/// What RIME was asked to do before the task at `i` of a script: the dictionaries and the
/// selected files are collected, and the mirror is filled, between the two
/// synchronisations; the dictionaries are merged and the selected files brought together
/// and written back between the second one and the deployment; the folders are emptied
/// after it.
#[verifier::rlimit(40)]
pub proof fn law_commands_frame_the_work(course: Course, i: int)
    requires
        0 <= i < script(course).len(),
    ensures
        ({
            let task = script(course)[i];
            let asked = commands_of(script(course).take(i));
            &&& (task is Collect || task is CollectDictionary || task is Download
                || task is SeedMirror || task is ResetMirror) ==> asked == seq![TaskView::RunSync]
            &&& (task is MergeDictionary || task is Combine || task is WriteBack) ==> asked == seq![
                TaskView::RunSync,
                TaskView::RunSync,
            ]
            &&& (task is ClearMirror || task is ClearDevice) ==> asked == whole_commands()
        }),
{
    let all = script(course);
    let (first, second) = (collecting(course.job), mirroring(course.job, course.remote));
    let (third, fourth) = (combining(course.job, course.merges), finishing(course.written));
    lemma_stages(course);
    lemma_script_take(course);
    let a = first.len() as int;
    let b = a + second.len();
    let c = b + third.len();
    if i < a {
        assert(all[i] == first[i]);
        assert(all.take(i) =~= first.take(i));
        if first[i] is Collect || first[i] is CollectDictionary {
            lemma_commands_collecting(course.job, i);
        }
    } else if i < b {
        let j = i - a;
        assert(all[i] == second[j]);
        assert(all.take(i) =~= first + second.take(j));
        if second[j] is Download || second[j] is SeedMirror || second[j] is ResetMirror {
            lemma_commands_mirroring(course, j);
        }
    } else if i < c {
        let j = i - b;
        assert(all[i] == third[j]);
        assert(all.take(i) =~= first + second + third.take(j));
        lemma_commands_combining(course, j);
    } else {
        let j = i - c;
        assert(all[i] == fourth[j]);
        assert(all.take(i) =~= first + second + third + fourth.take(j));
        if j == 8 || j == 9 {
            lemma_commands_finishing(course, j);
        }
    }
}

/// Every dictionary of the user folder is collected, and every dictionary that is found
/// on either side afterwards is merged, whether or not anything is selected; only a
/// dictionary that is selected itself goes by its own mode.
pub proof fn law_every_dictionary_is_merged(
    course: Course,
    id: Seq<char>,
    files: Seq<SyncFileView>,
    own: Seq<Seq<char>>,
    listed: Seq<Seq<char>>,
    i: int,
)
    requires
        course.job == job_for(id, files, own),
        course.merges == dictionaries(listed, files),
    ensures
        0 <= i < own.len() && is_dictionary(slashed(own[i])) && !selects(files, slashed(own[i]))
            ==> script(course).contains(TaskView::CollectDictionary(slashed(own[i]))),
        0 <= i < listed.len() && is_dictionary(slashed(listed[i])) && !selects(
            files,
            slashed(listed[i]),
        ) ==> script(course).contains(TaskView::MergeDictionary(slashed(listed[i]))),
{
    let all = script(course);
    let (first, second) = (collecting(course.job), mirroring(course.job, course.remote));
    let third = combining(course.job, course.merges);
    if 0 <= i < own.len() && is_dictionary(slashed(own[i])) && !selects(files, slashed(own[i])) {
        law_every_dictionary_is_chosen(own, files, i);
        let paths = course.job.dictionaries;
        let j = choose|j: int| 0 <= j < paths.len() && paths[j] == slashed(own[i]);
        let k = 3 + gram_tasks(course.job).len() + j;
        assert(first[k] == TaskView::CollectDictionary(paths[j]));
        assert(all[k] == first[k]);
    }
    if 0 <= i < listed.len() && is_dictionary(slashed(listed[i])) && !selects(
        files,
        slashed(listed[i]),
    ) {
        law_every_dictionary_is_chosen(listed, files, i);
        let paths = course.merges;
        let j = choose|j: int| 0 <= j < paths.len() && paths[j] == slashed(listed[i]);
        assert(third[j] == TaskView::MergeDictionary(paths[j]));
        let k = first.len() + second.len() + j;
        assert(all[k] == third[j]);
    }
}

/// A run merges the dictionaries that it has found last: those that the outcome of the
/// listing holds.
pub proof fn law_listed_dictionaries_are_merged(run: RunView, found: Seq<Seq<char>>)
    requires
        0 <= run.at < stage_tasks(run).len(),
        current(run) is ListDictionaries,
    ensures
        next_step(run, OutcomeView::Found(found), false) matches StepView::Do(next, _)
            && next.stage is Combining && next.course.merges == dictionaries(
            found,
            run.course.job.files,
        ),
{
    lemma_stages(run.course);
    let second = mirroring(run.course.job, run.course.remote);
    if run.stage is Mirroring {
        lemma_mirroring_places(run.course.job, run.course.remote);
        let n = second.len() - 1;
        assert(second[n] is ListDictionaries);
        assert forall|i: int| 0 <= i < n implies !(#[trigger] second[i] is ListDictionaries) by {
            let m = filling(run.course.remote).len() as int;
            if 1 <= i < 1 + m {
                assert(second[i] == filling(run.course.remote)[i - 1]);
            }
        }
    }
}

/// What a run for the given settings is about, where `text` is that of
/// `installation.yaml` and `found` holds the files of the dictionary folders.
pub open spec fn job_of(
    settings: SettingsView,
    text: Seq<char>,
    found: Seq<Seq<char>>,
) -> Option<Job> {
    match device_id(text) {
        Ok(id) => Some(job_for(id, slashed_files(settings.sync_files), found)),
        Err(_) => None,
    }
}

/// What the user is told by a run for the given settings, by the outcomes of its tasks.
pub open spec fn told(
    settings: SettingsView,
    text: Seq<char>,
    found: Seq<Seq<char>>,
    events: Seq<(OutcomeView, bool)>,
) -> Seq<TaskView> {
    match job_of(settings, text, found) {
        Some(job) => handed(job, events).filter(tells_user()),
        None => Seq::empty(),
    }
}

/// What the user is told does not depend on the password: runs for settings that differ
/// in the password alone, whose tasks end alike, tell the same.
pub proof fn law_nothing_is_told_of_the_password(
    settings: SettingsView,
    password: Seq<char>,
    text: Seq<char>,
    found: Seq<Seq<char>>,
    events: Seq<(OutcomeView, bool)>,
)
    ensures
        told((SettingsView { password, ..settings }), text, found, events) == told(
            settings,
            text,
            found,
            events,
        ),
{
}

/// In the last part of a run, `d` outcomes ago the run waited for the task `d` places
/// before.
proof fn lemma_back(job: Job, events: Seq<(OutcomeView, bool)>, d: int)
    requires
        after(job, events) is Do,
        after(job, events)->Do_0.stage is Finishing,
        0 <= d <= after(job, events)->Do_0.at,
    ensures
        d <= events.len(),
        after(job, events.take(events.len() - d)) is Do,
        ({
            let run = after(job, events)->Do_0;
            let before = after(job, events.take(events.len() - d))->Do_0;
            before == RunView { at: run.at - d, ..run }
        }),
    decreases d,
{
    lemma_after(job, events);
    if d == 0 {
        assert(events.take(events.len() as int) =~= events);
    } else {
        let run = after(job, events)->Do_0;
        assert(events.len() > 0) by {
            if events.len() == 0 {
                assert(run.at == 0);
            }
        }
        let init = events.drop_last();
        let before = after(job, init)->Do_0;
        lemma_after(job, init);
        lemma_stages(before.course);
        assert(before.stage is Finishing && before.at == run.at - 1);
        lemma_back(job, init, d - 1);
        assert(init.take(init.len() - (d - 1)) =~= events.take(events.len() - d));
    }
}

/// The folders are emptied only after the mirror was uploaded in full: when a run asks
/// for it, an earlier task was that upload, it succeeded, and no stop was asked for.
pub proof fn law_folders_are_emptied_only_after_the_upload(
    job: Job,
    events: Seq<(OutcomeView, bool)>,
)
    requires
        after(job, events) matches StepView::Do(_, task) && (task is ClearMirror
            || task is ClearDevice),
    ensures
        exists|k: int|
            {
                &&& 0 <= k < events.len()
                &&& #[trigger] after(job, events.take(k)) matches StepView::Do(run, task)
                &&& task is Upload
                &&& run.stage is Finishing
                &&& !(events[k].0 is Failed)
                &&& forall|j: int| k <= j < events.len() ==> !(#[trigger] events[j]).1
            },
{
    lemma_after(job, events);
    law_tasks_follow_the_script(job, events);
    let run = after(job, events)->Do_0;
    lemma_stages(run.course);
    assert(run.stage is Finishing);
    assert(run.at == 8 || run.at == 9);
    let d = run.at - 5;
    lemma_back(job, events, d);
    let k = events.len() - d;
    lemma_after(job, events.take(k));
    assert(after(job, events.take(k)) is Do);
}

/// How far the run is never goes back, and ends at a hundred.
pub proof fn law_progress_never_falls(course: Course, i: int, j: int)
    requires
        0 <= i <= j < script(course).len(),
        script(course)[i] is Progress,
        script(course)[j] is Progress,
    ensures
        0 <= script(course)[i]->Progress_0 <= script(course)[j]->Progress_0 <= 100,
{
    let all = script(course);
    let a = collecting(course.job).len() as int;
    let b = a + mirroring(course.job, course.remote).len();
    let c = b + combining(course.job, course.merges).len();
    lemma_stages(course);
    lemma_script_take(course);
    lemma_mirroring_places(course.job, course.remote);
    let (x, y) = (all[i], all[j]);
    lemma_progress_range(course, i);
    lemma_progress_range(course, j);
    if i < a && j < a {
        assert(x == collecting(course.job)[i] && y == collecting(course.job)[j]);
    } else if a <= i < b && j < b {
        assert(x == mirroring(course.job, course.remote)[i - a]);
        assert(y == mirroring(course.job, course.remote)[j - a]);
    } else if c <= i {
        assert(x == finishing(course.written)[i - c] && y == finishing(course.written)[j - c]);
    }
}

/// How far each part of a run can show it to be.
proof fn lemma_progress_range(course: Course, i: int)
    requires
        0 <= i < script(course).len(),
        script(course)[i] is Progress,
    ensures
        ({
            let a = collecting(course.job).len();
            let b = a + mirroring(course.job, course.remote).len();
            let c = b + combining(course.job, course.merges).len();
            let value = script(course)[i]->Progress_0;
            &&& i < a ==> 15 <= value <= 25
            &&& a <= i < b ==> 45 <= value <= 65
            &&& !(b <= i < c)
            &&& c <= i ==> 80 <= value <= 100
        }),
{
    let all = script(course);
    let a = collecting(course.job).len() as int;
    let b = a + mirroring(course.job, course.remote).len();
    let c = b + combining(course.job, course.merges).len();
    lemma_stages(course);
    lemma_script_take(course);
    lemma_mirroring_places(course.job, course.remote);
    if i < a {
        assert(all[i] == collecting(course.job)[i]);
    } else if i < b {
        assert(all[i] == mirroring(course.job, course.remote)[i - a]);
    } else if i < c {
        assert(all[i] == combining(course.job, course.merges)[i - b]);
    } else {
        assert(all[i] == finishing(course.written)[i - c]);
    }
}

/// RIME deploys once, after every dictionary was merged and every selected file was
/// brought together and written back, and before the mirror is uploaded for the last
/// time.
pub proof fn law_deploying_follows_merging(course: Course, j: int)
    requires
        0 <= j < script(course).len(),
        script(course)[j] is RunDeploy,
    ensures
        forall|i: int|
            0 <= i < script(course).len() && (#[trigger] script(course)[i] is Combine || script(
                course,
            )[i] is MergeDictionary || script(course)[i] is WriteBack) ==> i < j,
        forall|i: int|
            0 <= i < script(course).len() && #[trigger] script(course)[i] is RunDeploy ==> i == j,
        script(course)[j + 3] is Upload,
{
    lemma_stages(course);
    lemma_script_take(course);
    let all = script(course);
    let a = collecting(course.job).len() as int;
    let b = a + mirroring(course.job, course.remote).len();
    let n = b + combining(course.job, course.merges).len();
    assert forall|i: int| n <= i < all.len() implies #[trigger] all[i] == finishing(
        course.written,
    )[i - n] by {}
    assert forall|i: int| 0 <= i < n implies !(#[trigger] all[i] is RunDeploy) by {
        if i < a {
            assert(all[i] == collecting(course.job)[i]);
        } else if i < b {
            assert(all[i] == mirroring(course.job, course.remote)[i - a]);
        } else {
            assert(all[i] == combining(course.job, course.merges)[i - b]);
        }
    }
    assert(j == n + 2);
    assert(all[n + 5] == finishing(course.written)[5]);
}

/// The task changes what the mirror holds.
pub open spec fn changes_mirror(task: TaskView) -> bool {
    task is ResetMirror || task is SeedMirror || task is Download || task is MergeDictionary
        || task is Combine
}

/// What is uploaded always names its device `WebDAV`: nothing changes the mirror between
/// the last time it was marked and an upload.
#[verifier::rlimit(40)]
pub proof fn law_uploaded_mirror_is_marked(course: Course, j: int)
    requires
        0 <= j < script(course).len(),
        script(course)[j] is Upload,
    ensures
        exists|i: int|
            {
                &&& 0 <= i < j
                &&& #[trigger] script(course)[i] is MarkMirror
                &&& forall|k: int| i < k < j ==> !changes_mirror(#[trigger] script(course)[k])
            },
{
    lemma_stages(course);
    lemma_script_take(course);
    let job = course.job;
    lemma_write_backs(job.files, job.files.len() as int);
    let all = script(course);
    let a = collecting(job).len() as int;
    let second = mirroring(job, course.remote);
    let third = combining(job, course.merges);
    let backs = write_backs(job.files, job.files.len() as int);
    let b = a + second.len();
    let n = b + third.len();
    assert forall|i: int| n <= i < all.len() implies #[trigger] all[i] == finishing(
        course.written,
    )[i - n] by {}
    assert forall|i: int| b <= i < n implies #[trigger] all[i] == third[i - b] by {}
    assert forall|i: int| a <= i < b implies #[trigger] all[i] == second[i - a] by {}
    assert forall|i: int| 0 <= i < a implies #[trigger] all[i] == collecting(job)[i] by {}
    if j >= n {
        let i = n - backs.len() - 2;
        assert(j == n + 5);
        assert(third[i - b] is MarkMirror);
        assert(all[i] is MarkMirror);
        assert forall|k: int| i < k < j implies !changes_mirror(#[trigger] all[k]) by {
            if k < n && k > i + 1 {
                assert(third[k - b] == backs[k - i - 2]);
            }
        }
    } else {
        assert(a <= j < b);
        assert(second[j - a] is Upload);
        lemma_first_upload(job, course.remote, j - a);
        assert(all[j - 1] == second[3]);
        assert(all[j - 1] is MarkMirror);
    }
}

/// The second part of a run uploads the mirror only where it was seeded and marked.
proof fn lemma_first_upload(job: Job, remote: nat, j: int)
    requires
        0 <= j < mirroring(job, remote).len(),
        mirroring(job, remote)[j] is Upload,
    ensures
        j == 4,
        mirroring(job, remote)[3] is MarkMirror,
{
    let second = mirroring(job, remote);
    let m = filling(remote).len() as int;
    assert forall|i: int| 1 <= i < 1 + m implies #[trigger] second[i] == filling(remote)[i - 1] by {}
    assert(1 <= j < 1 + m);
}

/// The task stands at one place of the list.
pub open spec fn once(tasks: Seq<TaskView>, task: TaskView) -> bool {
    exists|k: int|
        0 <= k < tasks.len() && #[trigger] tasks[k] == task && forall|j: int|
            0 <= j < tasks.len() && #[trigger] tasks[j] == task ==> j == k
}

/// The task stands at the place `k` of a script, and at no other.
proof fn lemma_once(course: Course, task: TaskView, k: int)
    requires
        0 <= k < script(course).len(),
        script(course)[k] == task,
        forall|j: int|
            0 <= j < script(course).len() && #[trigger] script(course)[j] == task ==> j == k,
    ensures
        once(script(course), task),
{
}

/// The part of a script in which a place lies, and the place in that part.
proof fn lemma_part_of(course: Course, k: int)
    requires
        0 <= k < script(course).len(),
    ensures
        ({
            let a = collecting(course.job).len() as int;
            let b = a + mirroring(course.job, course.remote).len();
            let c = b + combining(course.job, course.merges).len();
            &&& k < a ==> script(course)[k] == collecting(course.job)[k]
            &&& a <= k < b ==> script(course)[k] == mirroring(course.job, course.remote)[k - a]
            &&& b <= k < c ==> script(course)[k] == combining(course.job, course.merges)[k - b]
            &&& c <= k ==> script(course)[k] == finishing(course.written)[k - c] && k - c < 12
        }),
{
    lemma_script_take(course);
}

/// Which files are written back, and in which order.
proof fn lemma_write_back_files(files: Seq<SyncFileView>, n: int)
    requires
        0 <= n <= files.len(),
    ensures
        ({
            let backs = write_backs(files, n);
            &&& forall|k: int|
                0 <= k < backs.len() ==> #[trigger] backs[k] is WriteBack && 0
                    <= backs[k]->WriteBack_0 < n && files[backs[k]->WriteBack_0].writeback
            &&& forall|k: int, j: int|
                0 <= k < j < backs.len() ==> (#[trigger] backs[k])->WriteBack_0 < (
                #[trigger] backs[j])->WriteBack_0
            &&& forall|i: int|
                0 <= i < n && (#[trigger] files[i]).writeback ==> backs.contains(
                    TaskView::WriteBack(i),
                )
        }),
    decreases n,
{
    if n > 0 {
        lemma_write_back_files(files, n - 1);
        let (backs, before) = (write_backs(files, n), write_backs(files, n - 1));
        assert forall|i: int| 0 <= i < n && (#[trigger] files[i]).writeback implies backs.contains(
            TaskView::WriteBack(i),
        ) by {
            if i < n - 1 {
                let k = choose|k: int|
                    0 <= k < before.len() && before[k] == TaskView::WriteBack(i);
                assert(backs[k] == TaskView::WriteBack(i));
            } else {
                assert(backs[backs.len() - 1] == TaskView::WriteBack(i));
            }
        }
    }
}

/// A selected file is written back once if the user wants it so, and not otherwise,
/// whatever its mode is. What is written back is a selected file.
pub proof fn law_wanted_files_are_written_back(course: Course, i: int)
    ensures
        0 <= i < course.job.files.len() && course.job.files[i].writeback ==> once(
            script(course),
            TaskView::WriteBack(i),
        ),
        !(0 <= i < course.job.files.len() && course.job.files[i].writeback) ==> !script(
            course,
        ).contains(TaskView::WriteBack(i)),
{
    let files = course.job.files;
    let all = script(course);
    let backs = write_backs(files, files.len() as int);
    let third = combining(course.job, course.merges);
    let b = collecting(course.job).len() + mirroring(course.job, course.remote).len();
    let n = third.len() - backs.len();
    lemma_stages(course);
    lemma_script_take(course);
    lemma_write_back_files(files, files.len() as int);
    let task = TaskView::WriteBack(i);
    assert forall|j: int| 0 <= j < all.len() && #[trigger] all[j] == task implies b + n <= j
        < b + third.len() && backs[j - b - n] == task by {
        lemma_part_of(course, j);
        assert(all[j] == third[j - b]);
        assert(third[j - b] == backs[j - b - n]);
    }
    if 0 <= i < files.len() && files[i].writeback {
        let k = choose|k: int| 0 <= k < backs.len() && backs[k] == task;
        assert(third[n + k] == backs[k]);
        assert(all[b + n + k] == task);
        assert forall|j: int| 0 <= j < all.len() && #[trigger] all[j] == task implies j == b + n
            + k by {
            assert(backs[j - b - n] == task);
        }
        lemma_once(course, task, b + n + k);
    } else if all.contains(task) {
        let j = choose|j: int| 0 <= j < all.len() && all[j] == task;
        assert(backs[j - b - n] is WriteBack);
    }
}

/// Each selected file is collected once and brought together once, each remote file is
/// downloaded once, and nothing else is.
#[verifier::rlimit(40)]
pub proof fn law_every_file_is_handled_once(course: Course, i: int)
    ensures
        0 <= i < course.job.files.len() ==> once(script(course), TaskView::Collect(i)) && once(
            script(course),
            TaskView::Combine(i),
        ),
        !(0 <= i < course.job.files.len()) ==> !script(course).contains(TaskView::Collect(i))
            && !script(course).contains(TaskView::Combine(i)),
        0 <= i < course.remote ==> once(script(course), TaskView::Download(i)),
        !(0 <= i < course.remote) ==> !script(course).contains(TaskView::Download(i)),
{
    let all = script(course);
    let job = course.job;
    let (first, second) = (collecting(job), mirroring(job, course.remote));
    let third = combining(job, course.merges);
    let a = first.len() as int;
    let b = a + second.len();
    let p = 3 + gram_tasks(job).len() + job.dictionaries.len();
    let q = course.merges.len() as int;
    lemma_stages(course);
    lemma_script_take(course);
    lemma_mirroring_places(job, course.remote);
    assert forall|j: int| 0 <= j < all.len() && #[trigger] all[j] == TaskView::Collect(i) implies j
        == p + i && 0 <= i < job.files.len() by {
        lemma_part_of(course, j);
        assert(all[j] == first[j]);
    }
    assert forall|j: int| 0 <= j < all.len() && #[trigger] all[j] == TaskView::Combine(i) implies j
        == b + q + i && 0 <= i < job.files.len() by {
        lemma_part_of(course, j);
        assert(all[j] == third[j - b]);
        lemma_write_backs(job.files, job.files.len() as int);
        let backs = write_backs(job.files, job.files.len() as int);
        if j - b >= third.len() - backs.len() {
            assert(third[j - b] == backs[j - b - (third.len() - backs.len())]);
        }
    }
    assert forall|j: int| 0 <= j < all.len() && #[trigger] all[j] == TaskView::Download(i) implies j
        == a + 2 + i && 0 <= i < course.remote by {
        lemma_part_of(course, j);
        assert(all[j] == second[j - a]);
        assert(1 <= j - a < 1 + filling(course.remote).len());
        assert(second[j - a] == filling(course.remote)[j - a - 1]);
    }
    if 0 <= i < job.files.len() {
        assert(first[p + i] == TaskView::Collect(i));
        assert(all[p + i] == first[p + i]);
        lemma_once(course, TaskView::Collect(i), p + i);
        assert(third[q + i] == TaskView::Combine(i));
        assert(all[b + q + i] == third[q + i]);
        lemma_once(course, TaskView::Combine(i), b + q + i);
    }
    if 0 <= i < course.remote {
        assert(filling(course.remote)[1 + i] == TaskView::Download(i));
        assert(second[2 + i] == filling(course.remote)[1 + i]);
        assert(all[a + 2 + i] == second[2 + i]);
        lemma_once(course, TaskView::Download(i), a + 2 + i);
    }
}

/// A selected file is written back only after it was brought together.
pub proof fn law_files_are_written_back_after_merging(course: Course, i: int, j: int, k: int)
    requires
        0 <= j < script(course).len(),
        0 <= k < script(course).len(),
        script(course)[j] == TaskView::Combine(i) || script(course)[j] is MergeDictionary,
        script(course)[k] is WriteBack,
    ensures
        j < k,
{
    let job = course.job;
    let backs = write_backs(job.files, job.files.len() as int);
    let third = combining(job, course.merges);
    lemma_stages(course);
    lemma_part_of(course, j);
    lemma_part_of(course, k);
    lemma_write_backs(job.files, job.files.len() as int);
    let b = collecting(job).len() + mirroring(job, course.remote).len();
    let n = third.len() - backs.len();
    assert(script(course)[j] == third[j - b]);
    assert(script(course)[k] == third[k - b]);
    if j - b >= n {
        assert(third[j - b] == backs[j - b - n]);
    }
}

/// If the user has selected the language model, by a path in whatever case and with
/// whatever mode, it is not dropped. Otherwise it is dropped right after each
/// synchronisation of RIME.
#[verifier::rlimit(40)]
pub proof fn law_language_model_is_dropped_unless_selected(course: Course)
    ensures
        (exists|i: int|
            0 <= i < course.job.files.len() && same_letters(
                (#[trigger] course.job.files[i]).path,
                "wanxiang-lts-zh-hans.gram"@,
            )) ==> !script(course).contains(TaskView::DropGram),
        (forall|i: int|
            0 <= i < course.job.files.len() ==> !same_letters(
                (#[trigger] course.job.files[i]).path,
                "wanxiang-lts-zh-hans.gram"@,
            )) ==> forall|k: int|
            0 <= k < script(course).len() && #[trigger] script(course)[k] is RunSync ==> k + 1
                < script(course).len() && script(course)[k + 1] is DropGram,
{
    let job = course.job;
    law_language_model_is_kept_if_selected(job.files);
    let all = script(course);
    let (first, second) = (collecting(job), mirroring(job, course.remote));
    let a = first.len() as int;
    let m = filling(course.remote).len() as int;
    lemma_stages(course);
    lemma_script_take(course);
    lemma_mirroring_places(job, course.remote);
    if gram_selected(job.files) {
        assert forall|k: int| 0 <= k < all.len() implies !(#[trigger] all[k] is DropGram) by {
            lemma_part_of(course, k);
            if a <= k < a + second.len() && 1 <= k - a < 1 + m {
                assert(second[k - a] == filling(course.remote)[k - a - 1]);
            }
        }
    } else {
        assert forall|k: int| 0 <= k < all.len() && #[trigger] all[k] is RunSync implies k + 1
            < all.len() && all[k + 1] is DropGram by {
            lemma_part_of(course, k);
            if k < a {
                assert(k == 1);
                assert(first[2] is DropGram);
                assert(all[2] == first[2]);
            } else {
                assert(k == a + 4 + m);
                assert(second[5 + m] is DropGram);
                lemma_part_of(course, k + 1);
            }
        }
    }
}

/// The steps that a run takes once: it lists the shared folder, empties the mirror, lists
/// the dictionaries, deploys, and empties both folders at the end, in this order.
#[verifier::rlimit(60)]
pub proof fn law_single_steps(course: Course) -> (res: (int, int, int, int, int, int))
    ensures
        0 <= res.0 < res.1 < res.2 < res.3 < res.4 < res.5 < script(course).len(),
        ({
            let all = script(course);
            forall|j: int|
                #![trigger all[j]]
                0 <= j < all.len() ==> {
                    &&& all[j] is ListRemote <==> j == res.0
                    &&& all[j] is ResetMirror <==> j == res.1
                    &&& all[j] is ListDictionaries <==> j == res.2
                    &&& all[j] is RunDeploy <==> j == res.3
                    &&& all[j] is ClearMirror <==> j == res.4
                    &&& all[j] is ClearDevice <==> j == res.5
                }
        }),
{
    let all = script(course);
    let job = course.job;
    let (first, second) = (collecting(job), mirroring(job, course.remote));
    let (third, fourth) = (combining(job, course.merges), finishing(course.written));
    let a = first.len() as int;
    let b = a + second.len();
    let c = b + third.len();
    let m = filling(course.remote).len() as int;
    lemma_stages(course);
    lemma_script_take(course);
    lemma_mirroring_places(job, course.remote);
    assert forall|j: int|
        #![trigger all[j]]
        0 <= j < all.len() implies {
        &&& all[j] is ListRemote <==> j == a - 1
        &&& all[j] is ResetMirror <==> j == a
        &&& all[j] is ListDictionaries <==> j == b - 1
        &&& all[j] is RunDeploy <==> j == c + 2
        &&& all[j] is ClearMirror <==> j == c + 8
        &&& all[j] is ClearDevice <==> j == c + 9
    } by {
        lemma_part_of(course, j);
        if a <= j < b && 1 <= j - a < 1 + m {
            assert(second[j - a] == filling(course.remote)[j - a - 1]);
        }
    }
    (a - 1, a, b - 1, c + 2, c + 8, c + 9)
}

/// The mirror is filled from the device folder just if the shared folder is empty, and is
/// then uploaded at once; otherwise it is uploaded only at the end.
#[verifier::rlimit(60)]
pub proof fn law_empty_shared_folder_is_seeded(course: Course)
    ensures
        script(course).contains(TaskView::SeedMirror) <==> course.remote == 0,
        course.remote > 0 ==> once(script(course), TaskView::Upload),
        forall|k: int|
            0 <= k < script(course).len() && #[trigger] script(course)[k] is SeedMirror ==> k + 2
                < script(course).len() && script(course)[k + 1] is MarkMirror && script(course)[k
                + 2] is Upload,
{
    let all = script(course);
    let job = course.job;
    let second = mirroring(job, course.remote);
    let a = collecting(job).len() as int;
    let c = a + second.len() + combining(job, course.merges).len();
    let m = filling(course.remote).len() as int;
    lemma_stages(course);
    lemma_script_take(course);
    lemma_mirroring_places(job, course.remote);
    assert forall|j: int| 0 <= j < m implies #[trigger] second[j + 1] == filling(
        course.remote,
    )[j] by {}
    assert forall|j: int|
        #![trigger all[j]]
        0 <= j < all.len() implies (all[j] is SeedMirror <==> course.remote == 0 && j == a + 2)
        && (all[j] is Upload ==> j == c + 5 || course.remote == 0 && j == a + 4) by {
        lemma_part_of(course, j);
        if a <= j < a + second.len() && 1 <= j - a < 1 + m {
            assert(second[j - a] == filling(course.remote)[j - a - 1]);
        }
    }
    if course.remote == 0 {
        lemma_part_of(course, a + 2);
        lemma_part_of(course, a + 3);
        lemma_part_of(course, a + 4);
        assert(second[2] == filling(course.remote)[1]);
        assert(second[3] == filling(course.remote)[2]);
        assert(second[4] == filling(course.remote)[3]);
        assert(all[a + 2] == TaskView::SeedMirror);
    } else {
        lemma_part_of(course, c + 5);
        lemma_once(course, TaskView::Upload, c + 5);
    }
}

/// Only dictionaries that the run is about are collected, and only those that were found
/// last are merged.
pub proof fn law_nothing_else_is_merged(course: Course, path: Seq<char>)
    ensures
        script(course).contains(TaskView::CollectDictionary(path)) <==> course.job.dictionaries.contains(
            path,
        ),
        script(course).contains(TaskView::MergeDictionary(path)) <==> course.merges.contains(path),
{
    let all = script(course);
    let job = course.job;
    let (first, second) = (collecting(job), mirroring(job, course.remote));
    let third = combining(job, course.merges);
    let b = first.len() + second.len();
    lemma_stages(course);
    lemma_script_take(course);
    if all.contains(TaskView::CollectDictionary(path)) {
        let j = choose|j: int|
            0 <= j < all.len() && all[j] == TaskView::CollectDictionary(path);
        lemma_part_of(course, j);
        assert(all[j] == first[j]);
        let i = j - 3 - gram_tasks(job).len();
        assert(job.dictionaries[i] == path);
    }
    if job.dictionaries.contains(path) {
        let i = choose|i: int| 0 <= i < job.dictionaries.len() && job.dictionaries[i] == path;
        let j = 3 + gram_tasks(job).len() + i;
        assert(first[j] == TaskView::CollectDictionary(path));
        assert(all[j] == first[j]);
    }
    if all.contains(TaskView::MergeDictionary(path)) {
        let j = choose|j: int| 0 <= j < all.len() && all[j] == TaskView::MergeDictionary(path);
        lemma_part_of(course, j);
        assert(all[j] == third[j - b]);
        lemma_write_backs(job.files, job.files.len() as int);
        let backs = write_backs(job.files, job.files.len() as int);
        if j - b >= third.len() - backs.len() {
            assert(third[j - b] == backs[j - b - (third.len() - backs.len())]);
        }
        assert(course.merges[j - b] == path);
    }
    if course.merges.contains(path) {
        let i = choose|i: int| 0 <= i < course.merges.len() && course.merges[i] == path;
        assert(third[i] == TaskView::MergeDictionary(path));
        assert(all[b + i] == third[i]);
    }
}

/// The digits denote the number, and nothing else stands among them.
pub open spec fn denotes(digits: Seq<char>, n: nat) -> bool {
    number_of(digits) == n && forall|i: int|
        0 <= i < digits.len() ==> '0' <= #[trigger] digits[i] <= '9'
}

/// The lines of the log tell how many files were collected, downloaded, brought together
/// and written back.
#[verifier::rlimit(60)]
pub proof fn law_log_tells_the_counts(course: Course) -> (res: (
    Seq<char>,
    Seq<char>,
    Seq<char>,
))
    ensures
        denotes(res.0, course.job.files.len()),
        denotes(res.1, course.remote),
        denotes(res.2, course.written),
        script(course).contains(
            TaskView::Log(
                "步骤 1/7：RIME 自带同步数据已生成，并复制 "@ + res.0 + " 个自选文件到 Sync/"@ + course.job.id
                    + "。"@,
            ),
        ),
        course.remote > 0 ==> script(course).contains(
            TaskView::Log("步骤 2/7：下载 WebDAV 文件: "@ + res.1 + " 个。"@),
        ),
        script(course).contains(
            TaskView::Log("步骤 5/7：已按设置同步 "@ + res.0 + " 个自选文件。"@),
        ),
        script(course).contains(TaskView::Log("步骤 5/7：已回写 "@ + res.2 + " 个自选文件。"@)),
{
    let all = script(course);
    let job = course.job;
    let (first, second) = (collecting(job), mirroring(job, course.remote));
    let third = combining(job, course.merges);
    let a = first.len() as int;
    let b = a + second.len();
    let c = b + third.len();
    lemma_stages(course);
    lemma_script_take(course);
    law_digits_denote_the_number(job.files.len());
    law_digits_denote_the_number(course.remote);
    law_digits_denote_the_number(course.written);
    lemma_part_of(course, a - 3);
    assert(all[a - 3] == TaskView::Log(collected_line(job)));
    if course.remote > 0 {
        lemma_mirroring_places(job, course.remote);
        assert(second[1] == filling(course.remote)[0]);
        lemma_part_of(course, a + 1);
        assert(all[a + 1] == filling(course.remote)[0]);
    }
    let k = b + course.merges.len() + job.files.len() + 1;
    lemma_part_of(course, k);
    assert(all[k] == third[k - b]);
    lemma_part_of(course, c);
    assert(all[c] == finishing(course.written)[0]);
    (decimal(job.files.len()), decimal(course.remote), decimal(course.written))
}

/// How many files were copied back, by the outcomes of the tasks that asked for it.
pub open spec fn copied_back(job: Job, events: Seq<(OutcomeView, bool)>) -> nat
    decreases events.len(),
{
    if events.len() == 0 {
        0
    } else {
        let before = copied_back(job, events.drop_last());
        match (after(job, events.drop_last()), events.last().0) {
            (StepView::Do(_, TaskView::WriteBack(_)), OutcomeView::Done(count)) => if count > 0 {
                before + 1
            } else {
                before
            },
            _ => before,
        }
    }
}

/// A run counts the files that were copied back: its last part tells their number. A list
/// of files is no answer to a copy.
pub proof fn law_copied_files_are_counted(job: Job, events: Seq<(OutcomeView, bool)>)
    requires
        after(job, events) is Do,
        forall|k: int| 0 <= k < events.len() && #[trigger] events[k].0 is Found ==> !(after(
            job,
            events.take(k),
        )->Do_1 is WriteBack),
    ensures
        after(job, events)->Do_0.course.written == copied_back(job, events),
    decreases events.len(),
{
    if events.len() > 0 {
        let init = events.drop_last();
        lemma_after(job, events);
        lemma_after(job, init);
        assert forall|k: int| 0 <= k < init.len() && #[trigger] init[k].0 is Found implies !(after(
            job,
            init.take(k),
        )->Do_1 is WriteBack) by {
            assert(init[k] == events[k]);
            assert(init.take(k) =~= events.take(k));
        }
        law_copied_files_are_counted(job, init);
        assert(events.take(events.len() - 1) =~= init);
        assert(events[events.len() - 1] == events.last());
    }
}

/// As many files are downloaded as the shared folder was found to hold.
pub proof fn law_listed_files_are_downloaded(run: RunView, count: nat)
    requires
        0 <= run.at < stage_tasks(run).len(),
        current(run) is ListRemote,
    ensures
        next_step(run, OutcomeView::Done(count), false) matches StepView::Do(next, _)
            && next.course.remote == count,
{
    lemma_stages(run.course);
    if run.stage is Mirroring {
        lemma_mirroring_places(run.course.job, run.course.remote);
        let second = mirroring(run.course.job, run.course.remote);
        let m = filling(run.course.remote).len() as int;
        if 1 <= run.at < 1 + m {
            assert(second[run.at] == filling(run.course.remote)[run.at - 1]);
        }
    }
}

/// A stop ends the run as long as the device folder was not emptied, if nothing else does;
/// without a stop a task that did not fail is followed by the next one or by the end.
pub proof fn law_stop_ends_the_run(
    job: Job,
    events: Seq<(OutcomeView, bool)>,
    outcome: OutcomeView,
)
    requires
        after(job, events) is Do,
        !(outcome is Failed),
    ensures
        !handed(job, events).contains(TaskView::ClearDevice) ==> after(
            job,
            events.push((outcome, true)),
        ) == StepView::Failed(Fault::Stopped),
        !(after(job, events.push((outcome, false))) is Failed),
{
    let run = after(job, events)->Do_0;
    lemma_after(job, events);
    lemma_handed(job, events);
    lemma_work_done(run);
    lemma_stages(run.course);
    let all = script(run.course);
    let n = events.len() as int;
    assert(events.push((outcome, true)).drop_last() =~= events);
    assert(events.push((outcome, false)).drop_last() =~= events);
    if work_done(run) || is_last(run) {
        let k = n - (run.at - 9);
        lemma_part_of(run.course, k);
        assert(all[k] == TaskView::ClearDevice);
        assert(handed(job, events)[k] == all[k]);
    }
}

/// What is told to the user cannot fail: a run goes on after a report as if it had been
/// carried out.
pub proof fn law_reports_cannot_fail(
    job: Job,
    events: Seq<(OutcomeView, bool)>,
    outcome: OutcomeView,
    stopped: bool,
)
    requires
        after(job, events) is Do,
        after(job, events)->Do_1 is Log || after(job, events)->Do_1 is Progress,
    ensures
        after(job, events.push((outcome, stopped))) == after(
            job,
            events.push((OutcomeView::Done(0), stopped)),
        ),
{
    lemma_after(job, events);
    assert(events.push((outcome, stopped)).drop_last() =~= events);
    assert(events.push((OutcomeView::Done(0), stopped)).drop_last() =~= events);
}

} // verus!
