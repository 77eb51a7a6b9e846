//! Setting the program up: the RIME user folder that it works for, and the folder in
//! which it keeps its own files.
use vstd::prelude::*;

use crate::error::{failure, outcome, Fault, SyncError};
use crate::sync::{device_id, dir_key, lemma_dir_key, read_id};
use crate::text::{chars_of, is_blank, optional_view, trim, trim_text};
use crate::yaml::{
    carried, id_key, law_set_value_is_read_back, law_setting_one_key_keeps_another, lemma_id_key,
    quoted, scalar, set_yaml_scalar, value_text, with_value,
};

verus! {

/// The name of the settings file.
pub const SETTINGS_FILE: &'static str = "RimeUserDictSync.ini";

/// The name that the settings file had before.
pub const OLD_SETTINGS_FILE: &'static str = "WeaselUserDictSync.ini";

/// The name of the log file.
pub const LOG_FILE: &'static str = "RimeSync.log";

/// What a function that returns an id and a text, or fails, has returned.
pub open spec fn chosen_view(res: Result<(String, String), SyncError>) -> Result<
    (Seq<char>, Seq<char>),
    Fault,
> {
    match res {
        Ok((id, text)) => Ok((id@, text@)),
        Err(e) => Err(e@),
    }
}

/// Takes a RIME user folder over: gives its id, and the text of its `installation.yaml`
/// with RIME's sync folder set to `root`.
pub fn choose_rime(text: &str, root: &str) -> (res: Result<(String, String), SyncError>)
    ensures
        device_id(text@) matches Err(fault) ==> chosen_view(res) == Err::<
            (Seq<char>, Seq<char>),
            Fault,
        >(fault),
        device_id(text@) matches Ok(id) ==> chosen_view(res) == Ok::<
            (Seq<char>, Seq<char>),
            Fault,
        >((id, with_value(text@, dir_key(), quoted(root@)))),
{
    proof {
        lemma_dir_key();
    }
    let id = match read_id(text) {
        Ok(id) => id,
        Err(e) => {
            return Err(e);
        },
    };
    match set_yaml_scalar(text, "sync_dir", root) {
        Ok(new) => Ok((id, new)),
        Err(e) => Err(e),
    }
}

/// Taking a user folder over leaves its id as it was, unless the path of the sync folder
/// holds a line feed.
pub proof fn law_choosing_keeps_the_id(text: Seq<char>, root: Seq<char>)
    requires
        !root.contains('\n'),
    ensures
        device_id(with_value(text, dir_key(), quoted(root))) == device_id(text),
{
    lemma_id_key();
    lemma_dir_key();
    reveal_strlit("installation_id");
    reveal_strlit("sync_dir");
    assert(id_key().len() != dir_key().len());
    assert(dir_key()[0] == 's');
    law_setting_one_key_keeps_another(text, dir_key(), root, id_key());
}

/// Taking a user folder over makes RIME's sync folder the given one, if a line can carry
/// its path.
pub proof fn law_choosing_sets_the_sync_folder(text: Seq<char>, root: Seq<char>)
    requires
        carried(root),
    ensures
        scalar(
            value_text(with_value(text, dir_key(), quoted(root)), dir_key()),
            dir_key(),
        ) == Ok::<Seq<char>, Fault>(root),
{
    lemma_dir_key();
    law_set_value_is_read_back(text, dir_key(), root);
}

/// The folder for the program's files that the user has set, of which it is known whether
/// it is absolute; only an absolute one counts.
pub fn configured_dir(configured: &str, absolute: bool) -> (res: Option<String>)
    ensures
        match res {
            Some(dir) => absolute && trim(configured@).len() > 0 && dir@ == trim(configured@),
            None => !absolute || trim(configured@).len() == 0,
        },
{
    if is_blank(configured) || !absolute {
        None
    } else {
        Some(trim_text(configured))
    }
}

/// On macOS a path is absolute if it starts with a slash.
pub open spec fn absolute_on_macos(path: Seq<char>) -> bool {
    path.len() > 0 && path[0] == '/'
}

/// Tells whether a path is absolute on macOS.
fn is_absolute_on_macos(path: &str) -> (res: bool)
    ensures
        res == absolute_on_macos(path@),
{
    let chars = chars_of(path);
    chars.len() > 0 && chars[0] == '/'
}

/// The folder for the program's files that the user has set, if there is one and it is
/// absolute. Only macOS lets the user set this folder, so its rule counts.
pub fn app_dir(configured: &str) -> (res: Option<String>)
    ensures
        optional_view(res) == (if absolute_on_macos(trim(configured@)) {
            Some(trim(configured@))
        } else {
            None
        }),
{
    let dir = trim_text(configured);
    configured_dir(configured, is_absolute_on_macos(dir.as_str()))
}

/// Refuses a folder for the program's files that is not absolute.
pub fn check_app_dir(absolute: bool) -> (res: Result<(), SyncError>)
    ensures
        failure(res) == (if absolute {
            None
        } else {
            Some(Fault::ConfigDirRelative)
        }),
{
    if absolute {
        Ok(())
    } else {
        Err(SyncError::ConfigDirRelative)
    }
}

/// Decides on the folder that the program's files shall move to: its path without white
/// space around it, if that is absolute by the rule of macOS, which alone lets the user set
/// it.
pub fn set_app_dir(draft: &str) -> (res: Result<String, SyncError>)
    ensures
        outcome(res) == (if absolute_on_macos(trim(draft@)) {
            Ok(trim(draft@))
        } else {
            Err(Fault::ConfigDirRelative)
        }),
{
    let dir = trim_text(draft);
    match check_app_dir(is_absolute_on_macos(dir.as_str())) {
        Ok(_) => Ok(dir),
        Err(e) => Err(e),
    }
}

/// A step of the move of the program's files to another folder.
#[derive(Clone, Copy, Debug, PartialEq, Eq, Structural)]
pub enum MoveTask {
    /// Copy the synchronised data, if there are any.
    CopySync,
    /// Copy the log, if there is one.
    CopyLog,
    /// Save the settings in the new folder.
    SaveSettings,
    /// Set RIME's sync folder, if the user folder has an `installation.yaml`.
    PointRime,
    /// Make the new folder the one that the program uses.
    SetAppDir,
    /// Check that the program uses the new folder.
    Confirm,
    /// Use the new folder from now on.
    Switch,
    /// Remove the synchronised data from the old folder.
    RemoveSync,
    /// Remove the settings and the log from the old folder.
    RemoveFiles,
}

/// The steps of the move: nothing is copied or removed if the folder stays the same, and
/// RIME is pointed to the new folder if a user folder is set.
pub open spec fn move_tasks(same: bool, has_user_dir: bool) -> Seq<MoveTask> {
    (if same {
        seq![]
    } else {
        seq![MoveTask::CopySync, MoveTask::CopyLog]
    }) + seq![MoveTask::SaveSettings] + (if has_user_dir {
        seq![MoveTask::PointRime]
    } else {
        seq![]
    }) + seq![MoveTask::SetAppDir, MoveTask::Confirm, MoveTask::Switch] + (if same {
        seq![]
    } else {
        seq![MoveTask::RemoveSync, MoveTask::RemoveFiles]
    })
}

/// Plans the move of the program's files. `same` tells whether the new folder is the old
/// one, and `inside` whether it lies in the old one.
pub fn save_config_dir(same: bool, inside: bool, user_data_dir: &str) -> (res: Result<
    Vec<MoveTask>,
    SyncError,
>)
    ensures
        match res {
            Ok(tasks) => (same || !inside) && tasks@ == move_tasks(
                same,
                trim(user_data_dir@).len() > 0,
            ),
            Err(e) => !same && inside && e@ == Fault::ConfigDirNested,
        },
{
    if !same && inside {
        return Err(SyncError::ConfigDirNested);
    }
    let mut tasks: Vec<MoveTask> = Vec::new();
    if !same {
        tasks.push(MoveTask::CopySync);
        tasks.push(MoveTask::CopyLog);
    }
    tasks.push(MoveTask::SaveSettings);
    if !is_blank(user_data_dir) {
        tasks.push(MoveTask::PointRime);
    }
    tasks.push(MoveTask::SetAppDir);
    tasks.push(MoveTask::Confirm);
    tasks.push(MoveTask::Switch);
    if !same {
        tasks.push(MoveTask::RemoveSync);
        tasks.push(MoveTask::RemoveFiles);
    }
    assert(tasks@ =~= move_tasks(same, trim(user_data_dir@).len() > 0));
    Ok(tasks)
}

/// Fails if, after the move, the program does not use the new folder.
pub fn confirm_config_dir(moved: bool) -> (res: Result<(), SyncError>)
    ensures
        failure(res) == (if moved {
            None
        } else {
            Some(Fault::ConfigDirStale)
        }),
{
    if moved {
        Ok(())
    } else {
        Err(SyncError::ConfigDirStale)
    }
}

/// Nothing is removed from the old folder before it was copied and the new folder was
/// confirmed, and nothing at all if the folder stays the same.
pub proof fn law_old_folder_is_cleared_last(same: bool, has_user_dir: bool, j: int)
    requires
        0 <= j < move_tasks(same, has_user_dir).len(),
        move_tasks(same, has_user_dir)[j] is RemoveSync || move_tasks(same, has_user_dir)[j]
            is RemoveFiles,
    ensures
        !same,
        exists|i: int|
            0 <= i < j && #[trigger] move_tasks(same, has_user_dir)[i] is Confirm,
        exists|i: int|
            0 <= i < j && #[trigger] move_tasks(same, has_user_dir)[i] is CopySync,
        exists|i: int|
            0 <= i < j && #[trigger] move_tasks(same, has_user_dir)[i] is CopyLog,
{
    let all = move_tasks(same, has_user_dir);
    let c: int = if has_user_dir {
        5
    } else {
        4
    };
    assert(!same);
    assert(all[0] is CopySync);
    assert(all[1] is CopyLog);
    assert(all[c] is Confirm);
}

/// The settings file of an earlier release is taken over if there is one and no settings
/// file of this release.
pub fn adopts_old_settings(present: bool, old_present: bool) -> (res: bool)
    ensures
        res == (!present && old_present),
{
    !present && old_present
}

/// The RIME user folder that the user has set, if it is not blank.
pub fn user_dir(configured: &str) -> (res: Option<String>)
    ensures
        match res {
            Some(dir) => trim(configured@).len() > 0 && dir@ == configured@,
            None => trim(configured@).len() == 0,
        },
{
    if is_blank(configured) {
        None
    } else {
        Some(configured.to_owned())
    }
}

/// The steps of a move come in one order: the data are copied, the settings saved, RIME is
/// pointed to the new folder if a user folder is set, the new folder is set and confirmed,
/// and only then the old one is cleared. If the folder stays, nothing is copied or cleared.
pub proof fn law_steps_of_a_move(same: bool, has_user_dir: bool)
    ensures
        ({
            let all = move_tasks(same, has_user_dir);
            &&& all.contains(MoveTask::PointRime) <==> has_user_dir
            &&& all.contains(MoveTask::CopySync) <==> !same
            &&& all.contains(MoveTask::CopyLog) <==> !same
            &&& all.contains(MoveTask::RemoveSync) <==> !same
            &&& all.contains(MoveTask::RemoveFiles) <==> !same
            &&& all.contains(MoveTask::SaveSettings)
            &&& all.contains(MoveTask::SetAppDir)
            &&& all.contains(MoveTask::Confirm)
            &&& all.contains(MoveTask::Switch)
            &&& forall|i: int, j: int|
                0 <= i < j < all.len() ==> turn(#[trigger] all[i]) < turn(#[trigger] all[j])
        }),
{
    let all = move_tasks(same, has_user_dir);
    let a: int = if same {
        0
    } else {
        2
    };
    let b: int = if has_user_dir {
        a + 2
    } else {
        a + 1
    };
    assert(all[a] is SaveSettings);
    assert(all[b] is SetAppDir && all[b + 1] is Confirm && all[b + 2] is Switch);
    if has_user_dir {
        assert(all[a + 1] is PointRime);
    }
    if !same {
        assert(all[0] is CopySync && all[1] is CopyLog);
        assert(all[b + 3] is RemoveSync && all[b + 4] is RemoveFiles);
    }
}

/// When a step of a move has its turn.
pub open spec fn turn(task: MoveTask) -> int {
    match task {
        MoveTask::CopySync => 0,
        MoveTask::CopyLog => 1,
        MoveTask::SaveSettings => 2,
        MoveTask::PointRime => 3,
        MoveTask::SetAppDir => 4,
        MoveTask::Confirm => 5,
        MoveTask::Switch => 6,
        MoveTask::RemoveSync => 7,
        MoveTask::RemoveFiles => 8,
    }
}

/// On macOS a path is absolute if and only if it starts with a slash, whatever follows.
pub proof fn law_absolute_paths_start_with_a_slash(rest: Seq<char>, c: char)
    ensures
        absolute_on_macos(seq!['/'] + rest),
        c != '/' ==> !absolute_on_macos(seq![c] + rest),
        !absolute_on_macos(Seq::empty()),
{
    assert((seq!['/'] + rest)[0] == '/');
    assert((seq![c] + rest)[0] == c);
}

} // verus!
