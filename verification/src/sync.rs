//! What a run of the synchronisation has to know, and the decisions it makes on single
//! files.
use vstd::prelude::*;

use crate::config::{
    file_views, unsafe_id, validate_installation_id, SyncFile, SyncFileView,
};
use crate::error::{failure, outcome, Fault, SyncError};
use crate::paths::{
    all_plain, law_backslashes_become_slashes, law_blank_or_listed_path_is_refused,
    law_names_are_steps_down, law_selected_path_is_accepted, plain_part, portable, relative_parts,
    simple_name, slashed, steps_up, sync_file_path, validate_sync_file_path, validated,
};
use crate::text::{
    ascii_lower, has_text, is_blank, join, join_texts, law_case_is_ignored,
    law_pieces_make_up_the_text, lemma_split_join, lemma_split_lacks, lemma_trimmed, replace_char,
    same_ignoring_case, same_letters, same_text, split_on, split_text, trim, trimmed, views,
    white,
};
use crate::yaml::{
    around_key, id_key, key_text, law_plain_value_is_read, lemma_id_key, one_line_blank,
    plain_key, scalar, value_text, yaml_scalar,
};

verus! {

/// Who is told how a run goes.
pub trait Reporter: Send + Sync {
    /// A line for the log.
    fn log(&self, text: &str);

    /// How far the run is, in percent.
    fn progress(&self, value: u8);
}

/// The seconds since 1970 of a year that four digits can write.
pub open spec fn writable_time(seconds: i64) -> bool {
    -62_167_219_200 <= seconds < 253_402_300_800
}

/// What `chrono` writes for a time: year, month, day, hour, minute and second.
pub uninterp spec fn stamp_text(seconds: i64) -> Seq<char>;

/// A decimal digit.
pub open spec fn is_digit(c: char) -> bool {
    '0' <= c <= '9'
}

/// `chrono::DateTime::from_timestamp`, and its `format` with `%Y%m%d%H%M%S`: four digits
/// for the year, and two for each of the others.
#[verifier::external_body]
fn write_stamp(seconds: i64) -> (res: String)
    requires
        writable_time(seconds),
    ensures
        res@ == stamp_text(seconds),
        res@.len() == 14,
        forall|i: int| 0 <= i < res@.len() ==> is_digit(#[trigger] res@[i]),
{
    chrono::DateTime::from_timestamp(seconds, 0).unwrap().format("%Y%m%d%H%M%S").to_string()
}

/// A line of the log: the local time, given in seconds since 1970, and a text.
pub fn timestamped(seconds: i64, text: &str) -> (res: String)
    requires
        writable_time(seconds),
    ensures
        res@ == stamp_text(seconds) + " "@ + text@,
        stamp_text(seconds).len() == 14,
        forall|i: int| 0 <= i < 14 ==> is_digit(#[trigger] stamp_text(seconds)[i]),
{
    let mut line = write_stamp(seconds);
    line.append(" ");
    line.append(text);
    line
}

/// Refuses a blank setting.
pub fn required(value: &str, name: &str) -> (res: Result<(), SyncError>)
    ensures
        failure(res) == (if trim(value@).len() == 0 {
            Some(Fault::Required(name@))
        } else {
            None
        }),
{
    if is_blank(value) {
        Err(SyncError::Required(name.to_owned()))
    } else {
        Ok(())
    }
}

/// Fails once the user has asked for a stop.
pub fn check(stopped: bool) -> (res: Result<(), SyncError>)
    ensures
        failure(res) == (if stopped {
            Some(Fault::Stopped)
        } else {
            None
        }),
{
    if stopped {
        Err(SyncError::Stopped)
    } else {
        Ok(())
    }
}

/// The selected files with slashes in their paths.
pub open spec fn slashed_files(files: Seq<SyncFileView>) -> Seq<SyncFileView> {
    files.map_values(|file: SyncFileView| SyncFileView { path: slashed(file.path), ..file })
}

/// Every selected path means the same on every platform.
pub open spec fn portable_files(files: Seq<SyncFileView>) -> bool {
    forall|i: int| 0 <= i < files.len() ==> portable(slashed((#[trigger] files[i]).path))
}

/// The selected files, checked, or what is wrong with the first that is refused.
pub open spec fn checked_files(files: Seq<SyncFileView>) -> Result<Seq<SyncFileView>, Fault>
    decreases files.len(),
{
    if files.len() == 0 {
        Ok(Seq::empty())
    } else {
        let file = files.last();
        match checked_files(files.drop_last()) {
            Err(fault) => Err(fault),
            Ok(before) => match sync_file_path(
                file.path,
                false,
                relative_parts(slashed(file.path)),
            ) {
                Err(fault) => Err(fault),
                Ok(path) => Ok(before.push(SyncFileView { path, ..file })),
            },
        }
    }
}

/// No file's path starts with a slash or holds a `..` between slashes.
pub open spec fn none_steps_up(files: Seq<SyncFileView>) -> bool {
    forall|i: int|
        0 <= i < files.len() ==> !steps_up(#[trigger] files[i].path) && (files[i].path.len() > 0
            ==> files[i].path[0] != '/')
}

/// By some platform's reading of the selected paths, `res` holds the files with slashes
/// in their paths, or what is wrong with the first that is refused.
pub open spec fn files_validated(
    files: Seq<SyncFileView>,
    res: Result<Seq<SyncFileView>, Fault>,
) -> bool {
    match res {
        Ok(list) => list == slashed_files(files) && forall|i: int|
            0 <= i < files.len() ==> accepts(#[trigger] files[i]),
        Err(fault) => exists|i: int|
            {
                &&& 0 <= i < files.len()
                &&& validated((#[trigger] files[i]).path, Err(fault))
                &&& forall|j: int| 0 <= j < i ==> accepts(#[trigger] files[j])
            },
    }
}

/// Some platform accepts the path of a selected file.
pub open spec fn accepts(file: SyncFileView) -> bool {
    validated(file.path, Ok(slashed(file.path)))
}

proof fn lemma_checked_fault(files: Seq<SyncFileView>, n: int)
    requires
        0 <= n <= files.len(),
        checked_files(files.take(n)) is Err,
    ensures
        checked_files(files) == checked_files(files.take(n)),
    decreases files.len(),
{
    if n < files.len() {
        assert(files.drop_last().take(n) =~= files.take(n));
        lemma_checked_fault(files.drop_last(), n);
    } else {
        assert(files.take(n) =~= files);
    }
}

/// What a function that checks the selected files has returned.
pub open spec fn checked_view(res: Result<Vec<SyncFile>, SyncError>) -> Result<
    Seq<SyncFileView>,
    Fault,
> {
    match res {
        Ok(list) => Ok(file_views(list@)),
        Err(e) => Err(e@),
    }
}

/// Checks the selected files. Of paths that do not mean the same everywhere only what
/// every platform agrees on is stated.
pub fn check_files(files: &Vec<SyncFile>) -> (res: Result<Vec<SyncFile>, SyncError>)
    ensures
        files_validated(file_views(files@), checked_view(res)),
        portable_files(file_views(files@)) ==> match res {
            Ok(list) => checked_files(file_views(files@)) == Ok::<Seq<SyncFileView>, Fault>(
                file_views(list@),
            ),
            Err(e) => checked_files(file_views(files@)) == Err::<Seq<SyncFileView>, Fault>(e@),
        },
        res matches Ok(list) ==> {
            &&& file_views(list@) == slashed_files(file_views(files@))
            &&& none_steps_up(file_views(list@))
        },
{
    let ghost all = file_views(files@);
    let mut list: Vec<SyncFile> = Vec::new();
    assert(file_views(list@) =~= slashed_files(all).take(0));
    assert(all.take(0) =~= Seq::<SyncFileView>::empty());
    assert(file_views(list@) =~= Seq::<SyncFileView>::empty());
    let mut i: usize = 0;
    while i < files.len()
        invariant
            i <= files@.len(),
            all == file_views(files@),
            file_views(list@) == slashed_files(all).take(i as int),
            none_steps_up(file_views(list@)),
            forall|j: int| 0 <= j < i ==> accepts(#[trigger] all[j]),
            portable_files(all) ==> checked_files(all.take(i as int)) == Ok::<
                Seq<SyncFileView>,
                Fault,
            >(file_views(list@)),
        decreases files@.len() - i,
    {
        assert(all[i as int] == files@[i as int]@);
        assert(all.take(i + 1).drop_last() =~= all.take(i as int));
        assert(all.take(i + 1).last() == all[i as int]);
        match validate_sync_file_path(files[i].path.as_str()) {
            Ok(path) => {
                let file = SyncFile { path, mode: files[i].mode, writeback: files[i].writeback };
                let ghost shown = file@;
                let ghost before = list@;
                list.push(file);
                assert(file_views(list@) =~= file_views(before).push(shown));
                assert(slashed_files(all).take(i + 1) =~= slashed_files(all).take(i as int).push(
                    shown,
                ));
            },
            Err(e) => {
                proof {
                    if portable_files(all) {
                        lemma_checked_fault(all, i + 1);
                    }
                    assert(validated(all[i as int].path, Err(e@)));
                }
                return Err(e);
            },
        }
        i = i + 1;
    }
    assert(all.take(i as int) =~= all);
    assert(slashed_files(all).take(i as int) =~= slashed_files(all));
    Ok(list)
}

/// The key under which `installation.yaml` holds RIME's sync folder.
pub open spec fn dir_key() -> Seq<char> {
    "sync_dir"@
}

pub proof fn lemma_dir_key()
    ensures
        plain_key(dir_key()),
{
    reveal_strlit("sync_dir");
}

/// What a run needs to know of this device.
pub struct Device {
    /// The installation id, which names the device's folder.
    pub id: String,
    /// The selected files, with checked paths.
    pub files: Vec<SyncFile>,
    /// RIME's sync folder.
    pub sync_dir: String,
}

/// What a [`Device`] says.
pub struct DeviceView {
    pub id: Seq<char>,
    pub files: Seq<SyncFileView>,
    pub sync_dir: Seq<char>,
}

impl View for Device {
    type V = DeviceView;

    open spec fn view(&self) -> DeviceView {
        DeviceView { id: self.id@, files: file_views(self.files@), sync_dir: self.sync_dir@ }
    }
}

/// The id in the text of `installation.yaml`, if it can name a folder.
pub open spec fn device_id(text: Seq<char>) -> Result<Seq<char>, Fault> {
    match scalar(value_text(text, id_key()), id_key()) {
        Err(fault) => Err(fault),
        Ok(id) => if unsafe_id(id) {
            Err(Fault::InstallationId(id))
        } else {
            Ok(id)
        },
    }
}

/// The device that `installation.yaml` describes, with the selected files if they are
/// accepted, or the first thing that is wrong: with the id, then with a file, then with
/// the sync folder.
pub open spec fn device_with(
    text: Seq<char>,
    checked: Result<Seq<SyncFileView>, Fault>,
) -> Result<DeviceView, Fault> {
    match device_id(text) {
        Err(fault) => Err(fault),
        Ok(id) => match checked {
            Err(fault) => Err(fault),
            Ok(files) => match scalar(value_text(text, dir_key()), dir_key()) {
                Err(fault) => Err(fault),
                Ok(sync_dir) => Ok(DeviceView { id, files, sync_dir }),
            },
        },
    }
}

/// The device that `installation.yaml` and the selected files describe, or the first
/// thing that is wrong.
pub open spec fn device(text: Seq<char>, files: Seq<SyncFileView>) -> Result<DeviceView, Fault> {
    device_with(text, checked_files(files))
}

/// What a function that reads a device has returned.
pub open spec fn device_view(res: Result<Device, SyncError>) -> Result<DeviceView, Fault> {
    match res {
        Ok(found) => Ok(found@),
        Err(e) => Err(e@),
    }
}

/// Reads the id of a device.
pub fn read_id(text: &str) -> (res: Result<String, SyncError>)
    ensures
        outcome(res) == device_id(text@),
{
    proof {
        lemma_id_key();
    }
    let id = match yaml_scalar(text, "installation_id") {
        Ok(id) => id,
        Err(e) => {
            return Err(e);
        },
    };
    match validate_installation_id(id.as_str()) {
        Ok(_) => Ok(id),
        Err(e) => Err(e),
    }
}

/// Reads what a run needs to know of this device. `text` is that of `installation.yaml`,
/// if there is such a file.
pub fn read_device(text: Option<&str>, files: &Vec<SyncFile>) -> (res: Result<Device, SyncError>)
    ensures
        text is None ==> (res matches Err(e) && e@ == Fault::InstallationMissing),
        text matches Some(text) ==> {
            &&& device_id(text@) is Ok ==> exists|checked: Result<Seq<SyncFileView>, Fault>|
                #[trigger] files_validated(file_views(files@), checked) && device_view(res)
                    == device_with(text@, checked)
            &&& portable_files(file_views(files@)) ==> device_view(res) == device(
                text@,
                file_views(files@),
            )
            &&& res matches Ok(found) ==> {
                &&& device_id(text@) == Ok::<Seq<char>, Fault>(found@.id)
                &&& found@.files == slashed_files(file_views(files@))
                &&& none_steps_up(found@.files)
                &&& scalar(value_text(text@, dir_key()), dir_key()) == Ok::<Seq<char>, Fault>(
                    found@.sync_dir,
                )
            }
            &&& device_id(text@) matches Err(fault) ==> (res matches Err(e) && e@ == fault)
        },
{
    let text = match text {
        Some(text) => text,
        None => {
            return Err(SyncError::InstallationMissing);
        },
    };
    proof {
        lemma_dir_key();
    }
    let id = match read_id(text) {
        Ok(id) => id,
        Err(e) => {
            return Err(e);
        },
    };
    let checked = check_files(files);
    assert(files_validated(file_views(files@), checked_view(checked)));
    let files = match checked {
        Ok(files) => files,
        Err(e) => {
            return Err(e);
        },
    };
    match yaml_scalar(text, "sync_dir") {
        Ok(sync_dir) => Ok(Device { id, files, sync_dir }),
        Err(e) => Err(e),
    }
}

/// The device's folder stands beside the shared one: both are named by a single name,
/// and by different ones.
pub proof fn law_device_folder_is_beside_the_shared_one(text: Seq<char>)
    requires
        device_id(text) is Ok,
    ensures
        plain_part(device_id(text)->Ok_0),
        plain_part("WebDAV"@),
        ascii_lower(device_id(text)->Ok_0) != ascii_lower("WebDAV"@),
{
    reveal_strlit("WebDAV");
    reveal_strlit(".");
    reveal_strlit("..");
    assert("."@ =~= seq!['.']);
    assert(".."@ =~= seq!['.', '.']);
}

/// The default language model, which RIME puts among the data it synchronises.
pub open spec fn gram_name() -> Seq<char> {
    "wanxiang-lts-zh-hans.gram"@
}

/// The user has selected the default language model.
pub open spec fn gram_selected(files: Seq<SyncFileView>) -> bool {
    exists|i: int|
        0 <= i < files.len() && ascii_lower((#[trigger] files[i]).path) == ascii_lower(gram_name())
}

/// Decides whether the default language model is removed from the data that RIME has
/// synchronised: it is, unless the user has selected it.
pub fn remove_default_gram_unless_selected(files: &Vec<SyncFile>) -> (res: bool)
    ensures
        res == !gram_selected(file_views(files@)),
{
    let ghost all = file_views(files@);
    let mut i: usize = 0;
    while i < files.len()
        invariant
            i <= files@.len(),
            all == file_views(files@),
            forall|j: int|
                0 <= j < i ==> ascii_lower((#[trigger] all[j]).path) != ascii_lower(gram_name()),
        decreases files@.len() - i,
    {
        assert(all[i as int] == files@[i as int]@);
        if same_ignoring_case(files[i].path.as_str(), "wanxiang-lts-zh-hans.gram") {
            return false;
        }
        i = i + 1;
    }
    true
}

/// The first of the folders whose files are dictionaries.
pub const CN_DICTS: &'static str = "cn_dicts";

/// The second of the folders whose files are dictionaries.
pub const EN_DICTS: &'static str = "en_dicts";

/// The file lies in a dictionary folder: its path leads there by names alone.
pub open spec fn is_dictionary(path: Seq<char>) -> bool {
    let pieces = split_on(path, '/');
    &&& pieces.len() >= 2
    &&& pieces[0] == CN_DICTS@ || pieces[0] == EN_DICTS@
    &&& all_plain(pieces)
}

/// The pieces of a path without those that lead nowhere.
pub open spec fn leading_pieces(pieces: Seq<Seq<char>>) -> Seq<Seq<char>>
    decreases pieces.len(),
{
    if pieces.len() == 0 {
        Seq::empty()
    } else {
        let before = leading_pieces(pieces.drop_last());
        if pieces.last().len() == 0 || pieces.last() == seq!['.'] {
            before
        } else {
            before.push(pieces.last())
        }
    }
}

/// A path with one slash between its names.
pub open spec fn tidy(path: Seq<char>) -> Seq<char> {
    join(leading_pieces(split_on(path, '/')), "/"@)
}

/// The user has selected the file, in whatever case.
pub open spec fn selects(files: Seq<SyncFileView>, path: Seq<char>) -> bool {
    exists|i: int|
        0 <= i < files.len() && ascii_lower(tidy((#[trigger] files[i]).path)) == ascii_lower(path)
}

/// The dictionaries among the files of `found` that the user has not selected, each
/// once, in the order in which they were found. A selected file goes by its own mode.
pub open spec fn dictionaries(found: Seq<Seq<char>>, files: Seq<SyncFileView>) -> Seq<Seq<char>>
    decreases found.len(),
{
    if found.len() == 0 {
        Seq::empty()
    } else {
        let before = dictionaries(found.drop_last(), files);
        let path = slashed(found.last());
        if is_dictionary(path) && !selects(files, path) && !before.contains(path) {
            before.push(path)
        } else {
            before
        }
    }
}

/// Tells whether a file lies in a dictionary folder.
pub fn in_dictionary_folder(path: &str) -> (res: bool)
    ensures
        res == is_dictionary(path@),
{
    let pieces = split_text(path, '/');
    let ghost all = views(pieces@);
    proof {
        lemma_split_lacks(path@, '/', '/');
        reveal_strlit(".");
        reveal_strlit("..");
        assert("."@ =~= seq!['.']);
        assert(".."@ =~= seq!['.', '.']);
    }
    if pieces.len() < 2 {
        return false;
    }
    assert(all[0] == pieces@[0]@);
    if !same_text(pieces[0].as_str(), CN_DICTS) && !same_text(pieces[0].as_str(), EN_DICTS) {
        return false;
    }
    let mut i: usize = 0;
    while i < pieces.len()
        invariant
            i <= pieces@.len(),
            all == views(pieces@),
            all == split_on(path@, '/'),
            "."@ == seq!['.'],
            ".."@ == seq!['.', '.'],
            forall|j: int| 0 <= j < all.len() ==> !(#[trigger] all[j]).contains('/'),
            forall|j: int| 0 <= j < i ==> plain_part(#[trigger] all[j]),
        decreases pieces@.len() - i,
    {
        assert(all[i as int] == pieces@[i as int]@);
        let piece = pieces[i].as_str();
        if piece.is_empty() || same_text(piece, ".") || same_text(piece, "..") {
            assert(!plain_part(all[i as int]));
            return false;
        }
        i = i + 1;
    }
    true
}

/// Puts one slash between the names of a path.
fn tidy_path(path: &str) -> (res: String)
    ensures
        res@ == tidy(path@),
{
    let pieces = split_text(path, '/');
    let ghost all = views(pieces@);
    let mut kept: Vec<String> = Vec::new();
    assert(views(kept@) =~= leading_pieces(all.take(0)));
    proof {
        reveal_strlit(".");
        assert("."@ =~= seq!['.']);
    }
    let mut i: usize = 0;
    while i < pieces.len()
        invariant
            i <= pieces@.len(),
            all == views(pieces@),
            "."@ == seq!['.'],
            views(kept@) == leading_pieces(all.take(i as int)),
        decreases pieces@.len() - i,
    {
        assert(all.take(i + 1).drop_last() =~= all.take(i as int));
        assert(all.take(i + 1).last() == pieces@[i as int]@);
        let piece = pieces[i].as_str();
        if !piece.is_empty() && !same_text(piece, ".") {
            let ghost before = kept@;
            kept.push(piece.to_owned());
            assert(views(kept@) =~= views(before).push(piece@));
        }
        i = i + 1;
    }
    assert(all.take(i as int) =~= all);
    join_texts(&kept, "/")
}

/// Tells whether the user has selected the file.
fn is_selected(files: &Vec<SyncFile>, path: &str) -> (res: bool)
    ensures
        res == selects(file_views(files@), path@),
{
    let ghost all = file_views(files@);
    let mut i: usize = 0;
    while i < files.len()
        invariant
            i <= files@.len(),
            all == file_views(files@),
            forall|j: int|
                0 <= j < i ==> ascii_lower(tidy((#[trigger] all[j]).path)) != ascii_lower(path@),
        decreases files@.len() - i,
    {
        assert(all[i as int] == files@[i as int]@);
        let own = tidy_path(files[i].path.as_str());
        if same_ignoring_case(own.as_str(), path) {
            assert(ascii_lower(tidy(all[i as int].path)) == ascii_lower(path@));
            return true;
        }
        i = i + 1;
    }
    false
}

/// Tells whether a list holds a text.
fn holds_text(list: &Vec<String>, text: &str) -> (res: bool)
    ensures
        res == views(list@).contains(text@),
{
    let mut i: usize = 0;
    while i < list.len()
        invariant
            i <= list@.len(),
            forall|j: int| 0 <= j < i ==> #[trigger] views(list@)[j] != text@,
        decreases list@.len() - i,
    {
        assert(views(list@)[i as int] == list@[i as int]@);
        if same_text(list[i].as_str(), text) {
            return true;
        }
        i = i + 1;
    }
    false
}

/// Chooses the dictionaries among the files that were found, by their paths.
pub fn choose_dictionaries(found: &Vec<String>, files: &Vec<SyncFile>) -> (res: Vec<String>)
    ensures
        views(res@) == dictionaries(views(found@), file_views(files@)),
{
    proof {
        reveal_strlit("/");
        assert("/"@ =~= seq!['/']);
    }
    let ghost all = views(found@);
    let mut chosen: Vec<String> = Vec::new();
    assert(views(chosen@) =~= dictionaries(all.take(0), file_views(files@)));
    let mut i: usize = 0;
    while i < found.len()
        invariant
            i <= found@.len(),
            all == views(found@),
            "/"@ == seq!['/'],
            views(chosen@) == dictionaries(all.take(i as int), file_views(files@)),
        decreases found@.len() - i,
    {
        assert(all.take(i + 1).drop_last() =~= all.take(i as int));
        assert(all.take(i + 1).last() == found@[i as int]@);
        let path = replace_char(found[i].as_str(), '\\', "/");
        if in_dictionary_folder(path.as_str()) && !is_selected(files, path.as_str())
            && !holds_text(&chosen, path.as_str()) {
            let ghost before = chosen@;
            let ghost shown = path@;
            chosen.push(path);
            assert(views(chosen@) =~= views(before).push(shown));
        }
        i = i + 1;
    }
    assert(all.take(i as int) =~= all);
    chosen
}

/// No dictionary is left out: each file that was found in a dictionary folder is among
/// the chosen ones, or is selected and goes by its own mode.
pub proof fn law_every_dictionary_is_chosen(
    found: Seq<Seq<char>>,
    files: Seq<SyncFileView>,
    i: int,
)
    requires
        0 <= i < found.len(),
        is_dictionary(slashed(found[i])),
        !selects(files, slashed(found[i])),
    ensures
        dictionaries(found, files).contains(slashed(found[i])),
    decreases found.len(),
{
    let init = found.drop_last();
    let before = dictionaries(init, files);
    let path = slashed(found[i]);
    let all = dictionaries(found, files);
    if i < init.len() {
        law_every_dictionary_is_chosen(init, files, i);
        let j = choose|j: int| 0 <= j < before.len() && before[j] == path;
        assert(all[j] == path);
    } else if !before.contains(path) {
        assert(all[all.len() - 1] == path);
    }
}

/// Only dictionaries are chosen that were found and not selected, and each once.
pub proof fn law_chosen_dictionaries_are_not_selected(
    found: Seq<Seq<char>>,
    files: Seq<SyncFileView>,
)
    ensures
        dictionaries(found, files).no_duplicates(),
        forall|i: int|
            0 <= i < dictionaries(found, files).len() ==> {
                let path = #[trigger] dictionaries(found, files)[i];
                &&& is_dictionary(path)
                &&& !selects(files, path)
                &&& exists|j: int| 0 <= j < found.len() && slashed(#[trigger] found[j]) == path
            },
    decreases found.len(),
{
    if found.len() > 0 {
        let init = found.drop_last();
        law_chosen_dictionaries_are_not_selected(init, files);
        let before = dictionaries(init, files);
        let all = dictionaries(found, files);
        assert forall|i: int| 0 <= i < all.len() implies {
            let path = #[trigger] all[i];
            &&& is_dictionary(path)
            &&& !selects(files, path)
            &&& exists|j: int| 0 <= j < found.len() && slashed(#[trigger] found[j]) == path
        } by {
            if i < before.len() {
                assert(all[i] == before[i]);
                let j = choose|j: int| 0 <= j < init.len() && slashed(#[trigger] init[j]) == all[i];
                assert(slashed(found[j]) == all[i]);
            } else {
                assert(slashed(found[found.len() - 1]) == all[i]);
            }
        }
        assert(all.no_duplicates()) by {
            assert forall|x: int, y: int|
                0 <= x < all.len() && 0 <= y < all.len() && x != y implies all[x] != all[y] by {
                if x < before.len() && y < before.len() {
                    assert(before[x] != before[y]);
                } else if x < before.len() {
                    assert(before.contains(before[x]));
                } else {
                    assert(before.contains(before[y]));
                }
            }
        }
    }
}

/// Refuses to run if RIME's sync folder, `configured`, is not the program's own.
pub fn check_sync_root(configured: &str, root: &str) -> (res: Result<(), SyncError>)
    ensures
        failure(res) == (if configured@ == root@ {
            None
        } else {
            Some(Fault::SyncRoot)
        }),
{
    if same_text(configured, root) {
        Ok(())
    } else {
        Err(SyncError::SyncRoot)
    }
}

/// What is done about a file of which the newer copy counts.
#[derive(Clone, Copy, Debug, PartialEq, Eq, Structural)]
pub enum NewestAction {
    Nothing,
    /// The first copy replaces the second.
    CopyFirst,
    /// The second copy replaces the first.
    CopySecond,
}

/// Decides which copy replaces the other, by when each was changed; a copy that is
/// missing is replaced.
pub open spec fn newest_action(first: Option<i128>, second: Option<i128>) -> NewestAction {
    match (first, second) {
        (None, None) => NewestAction::Nothing,
        (None, Some(_)) => NewestAction::CopySecond,
        (Some(_), None) => NewestAction::CopyFirst,
        (Some(a), Some(b)) => if a > b {
            NewestAction::CopyFirst
        } else if b > a {
            NewestAction::CopySecond
        } else {
            NewestAction::Nothing
        },
    }
}

/// Decides which copy of a file replaces the other, by when each was changed.
pub fn sync_newest_file(first: Option<i128>, second: Option<i128>) -> (res: NewestAction)
    ensures
        res == newest_action(first, second),
{
    match (first, second) {
        (None, None) => NewestAction::Nothing,
        (None, Some(_)) => NewestAction::CopySecond,
        (Some(_), None) => NewestAction::CopyFirst,
        (Some(a), Some(b)) => if a > b {
            NewestAction::CopyFirst
        } else if b > a {
            NewestAction::CopySecond
        } else {
            NewestAction::Nothing
        },
    }
}

/// The times of the two copies after the action; a copy keeps the time of its source.
pub open spec fn times_after(first: Option<i128>, second: Option<i128>) -> (
    Option<i128>,
    Option<i128>,
) {
    match newest_action(first, second) {
        NewestAction::Nothing => (first, second),
        NewestAction::CopyFirst => (first, first),
        NewestAction::CopySecond => (second, second),
    }
}

/// The newer copy wins: afterwards both are as new as the newer was, neither is missing
/// if one was there, and there is nothing more to do.
pub proof fn law_newer_copy_wins(first: Option<i128>, second: Option<i128>)
    ensures
        ({
            let (a, b) = times_after(first, second);
            &&& a == b
            &&& newest_action(a, b) == NewestAction::Nothing
            &&& first matches Some(t) ==> a is Some && a->0 >= t
            &&& second matches Some(t) ==> a is Some && a->0 >= t
            &&& a == first || a == second
        }),
{
}

/// The language model counts as selected just if a selected file has its path, in
/// whatever case; the file's mode and whether it is written back make no difference.
pub proof fn law_language_model_is_kept_if_selected(files: Seq<SyncFileView>)
    ensures
        gram_selected(files) <==> exists|i: int|
            0 <= i < files.len() && same_letters(
                (#[trigger] files[i]).path,
                "wanxiang-lts-zh-hans.gram"@,
            ),
{
    assert forall|i: int| 0 <= i < files.len() implies (ascii_lower((#[trigger] files[i]).path)
        == ascii_lower(gram_name()) <==> same_letters(
        files[i].path,
        "wanxiang-lts-zh-hans.gram"@,
    )) by {
        law_case_is_ignored(files[i].path, gram_name());
    }
}

/// Every file below one of the two dictionary folders is a dictionary, by whatever names
/// the path leads to it.
pub proof fn law_files_below_the_folders_are_dictionaries(
    folder: Seq<char>,
    list: Seq<Seq<char>>,
)
    requires
        folder == "cn_dicts"@ || folder == "en_dicts"@,
        list.len() > 0,
        forall|i: int| 0 <= i < list.len() ==> simple_name(#[trigger] list[i]),
    ensures
        is_dictionary(join(seq![folder] + list, seq!['/'])),
{
    reveal_strlit("cn_dicts");
    reveal_strlit("en_dicts");
    reveal_strlit(".");
    reveal_strlit("..");
    let all = seq![folder] + list;
    assert forall|i: int| 0 <= i < all.len() implies plain_part(#[trigger] all[i])
        && !all[i].contains('/') by {
        if i > 0 {
            assert(all[i] == list[i - 1]);
        }
        law_names_are_steps_down(all[i]);
    }
    lemma_split_join(all, '/');
}

/// Every dictionary lies below one of the two folders.
pub proof fn law_dictionaries_lie_below_the_folders(path: Seq<char>)
    requires
        is_dictionary(path),
    ensures
        path.len() > 9,
        path.take(9) == "cn_dicts/"@ || path.take(9) == "en_dicts/"@,
{
    reveal_strlit("cn_dicts");
    reveal_strlit("en_dicts");
    reveal_strlit("cn_dicts/");
    reveal_strlit("en_dicts/");
    let pieces = split_on(path, '/');
    law_pieces_make_up_the_text(path, '/');
    assert(plain_part(pieces[1]));
    lemma_join_starts(pieces, '/');
    if pieces[0] == CN_DICTS@ {
        assert(pieces[0].push('/') =~= "cn_dicts/"@);
    } else {
        assert(pieces[0].push('/') =~= "en_dicts/"@);
    }
}

/// A text of two pieces or more starts with the first one and the separator.
proof fn lemma_join_starts(pieces: Seq<Seq<char>>, sep: char)
    requires
        pieces.len() >= 2,
        pieces[1].len() > 0,
    ensures
        join(pieces, seq![sep]).len() > pieces[0].len() + 1,
        join(pieces, seq![sep]).take(pieces[0].len() as int + 1) == pieces[0].push(sep),
    decreases pieces.len(),
{
    let init = pieces.drop_last();
    let n = pieces[0].len() as int + 1;
    if pieces.len() > 2 {
        assert(init[0] == pieces[0] && init[1] == pieces[1]);
        lemma_join_starts(init, sep);
        assert(join(pieces, seq![sep]).take(n) =~= join(init, seq![sep]).take(n));
    } else {
        assert(join(init, seq![sep]) == pieces[0]);
        assert(join(pieces, seq![sep]).take(n) =~= pieces[0].push(sep));
    }
}

/// A dictionary counts as selected just if a selected file has its path, in whatever case
/// and with whatever mode; empty pieces and dots in the selected path make no difference.
pub proof fn law_selection_goes_by_the_path(files: Seq<SyncFileView>, path: Seq<char>)
    ensures
        selects(files, path) <==> exists|i: int|
            0 <= i < files.len() && same_letters(
                join(
                    split_on((#[trigger] files[i]).path, '/').filter(
                        |piece: Seq<char>| piece.len() > 0 && piece != "."@,
                    ),
                    "/"@,
                ),
                path,
            ),
{
    let keep = |piece: Seq<char>| piece.len() > 0 && piece != "."@;
    assert forall|i: int| 0 <= i < files.len() implies (ascii_lower(tidy((#[trigger] files[i]).path))
        == ascii_lower(path) <==> same_letters(
        join(split_on(files[i].path, '/').filter(keep), "/"@),
        path,
    )) by {
        lemma_leading(split_on(files[i].path, '/'));
        law_case_is_ignored(tidy(files[i].path), path);
    }
}

proof fn lemma_leading(pieces: Seq<Seq<char>>)
    ensures
        leading_pieces(pieces) == pieces.filter(
            |piece: Seq<char>| piece.len() > 0 && piece != "."@,
        ),
    decreases pieces.len(),
{
    reveal(Seq::filter);
    reveal_strlit(".");
    assert("."@ =~= seq!['.']);
    if pieces.len() > 0 {
        lemma_leading(pieces.drop_last());
    }
}

/// The selected files of a device are those of the settings, in their order and with
/// their modes and write-back flags; only backslashes in the paths become slashes.
pub proof fn law_selected_files_stay_as_they_are(files: Seq<SyncFileView>, i: int)
    requires
        0 <= i < files.len(),
    ensures
        slashed_files(files).len() == files.len(),
        slashed_files(files)[i].mode == files[i].mode,
        slashed_files(files)[i].writeback == files[i].writeback,
        slashed_files(files)[i].path.len() == files[i].path.len(),
        forall|j: int|
            0 <= j < files[i].path.len() ==> #[trigger] slashed_files(files)[i].path[j] == (
            if files[i].path[j] == '\\' {
                '/'
            } else {
                files[i].path[j]
            }),
{
    law_backslashes_become_slashes(files[i].path);
}

/// The id of a device is what `installation.yaml` holds for `installation_id`, whatever it
/// is made of, unless it cannot name a folder beside that of the shared copy.
pub proof fn law_device_id_is_read(
    before: Seq<char>,
    indent: Seq<char>,
    gap: Seq<char>,
    front: Seq<char>,
    id: Seq<char>,
    tail: Seq<char>,
)
    requires
        around_key(before, indent, "installation_id"@, gap),
        one_line_blank(front),
        id.len() > 0,
        trimmed(id),
        !id.contains('\n'),
        !has_text(id, " #"@),
        !(id.len() >= 2 && id[0] == id.last() && (id[0] == '\'' || id[0] == '"')),
        tail.len() > 0 ==> tail[0] == '\n',
    ensures
        device_id(
            key_text(before, indent, "installation_id"@, gap, front + id + tail),
        ) == (if id.contains('/') || id.contains('\\') || id == "."@ || id == ".."@ || same_letters(
            id,
            "WebDAV"@,
        ) {
            Err::<Seq<char>, Fault>(Fault::InstallationId(id))
        } else {
            Ok(id)
        }),
{
    lemma_id_key();
    law_plain_value_is_read(before, indent, id_key(), gap, front, id, tail);
    law_case_is_ignored(id, "WebDAV"@);
    lemma_trimmed(id);
}

/// A device has the id and the sync folder that its `installation.yaml` gives, and the
/// files that were accepted; the first of these that is missing is told.
pub proof fn law_device_has_what_was_read(
    text: Seq<char>,
    id: Seq<char>,
    dir: Seq<char>,
    files: Seq<SyncFileView>,
    fault: Fault,
)
    requires
        device_id(text) == Ok::<Seq<char>, Fault>(id),
    ensures
        scalar(value_text(text, "sync_dir"@), "sync_dir"@) == Ok::<Seq<char>, Fault>(dir)
            ==> device_with(text, Ok(files)) == Ok::<DeviceView, Fault>(
            (DeviceView { id, files, sync_dir: dir }),
        ),
        scalar(value_text(text, "sync_dir"@), "sync_dir"@) == Err::<Seq<char>, Fault>(fault)
            ==> device_with(text, Ok(files)) == Err::<DeviceView, Fault>(fault),
        device_with(text, Err(fault)) == Err::<DeviceView, Fault>(fault),
{
}

/// Of two copies that are there, the one that was changed later replaces the other; a copy
/// that is missing is replaced by the one that is there.
pub proof fn law_later_copy_is_kept(a: i128, b: i128)
    ensures
        a > b ==> newest_action(Some(a), Some(b)) == NewestAction::CopyFirst,
        a < b ==> newest_action(Some(a), Some(b)) == NewestAction::CopySecond,
        a == b ==> newest_action(Some(a), Some(b)) == NewestAction::Nothing,
        newest_action(Some(a), None) == NewestAction::CopyFirst,
        newest_action(None, Some(b)) == NewestAction::CopySecond,
        newest_action(None, None) == NewestAction::Nothing,
{
}

/// A path that leads by names into the user folder, on every platform.
pub open spec fn leads_inside(value: Seq<char>) -> bool {
    &&& !value.contains(';')
    &&& exists|i: int| 0 <= i < value.len() && !white(#[trigger] value[i])
    &&& slashed(value).len() > 1 ==> slashed(value)[1] != ':'
    &&& exists|list: Seq<Seq<char>>| #[trigger]
        join(list, seq!['/']) == slashed(value) && list.len() > 0 && forall|i: int|
            0 <= i < list.len() ==> simple_name(#[trigger] list[i])
}

proof fn lemma_leads_inside(value: Seq<char>, res: Result<Seq<char>, Fault>)
    requires
        leads_inside(value),
        validated(value, res),
    ensures
        res == Ok::<Seq<char>, Fault>(slashed(value)),
{
    let list = choose|list: Seq<Seq<char>>| #[trigger]
        join(list, seq!['/']) == slashed(value) && list.len() > 0 && forall|i: int|
            0 <= i < list.len() ==> simple_name(#[trigger] list[i]);
    law_selected_path_is_accepted(value, list, res);
}

/// If the path of every selected file leads into the user folder, all are accepted, however
/// many there are and whatever their modes and flags.
pub proof fn law_files_inside_are_accepted(
    files: Seq<SyncFileView>,
    res: Result<Seq<SyncFileView>, Fault>,
)
    requires
        forall|i: int| 0 <= i < files.len() ==> leads_inside((#[trigger] files[i]).path),
        files_validated(files, res),
    ensures
        res == Ok::<Seq<SyncFileView>, Fault>(slashed_files(files)),
{
    if let Err(fault) = res {
        let i = choose|i: int|
            {
                &&& 0 <= i < files.len()
                &&& validated((#[trigger] files[i]).path, Err(fault))
                &&& forall|j: int| 0 <= j < i ==> accepts(#[trigger] files[j])
            };
        lemma_leads_inside(files[i].path, Err(fault));
    }
}

/// One path that is blank or holds a semicolon refuses all files, and the first such path
/// behind paths that lead into the user folder is told.
pub proof fn law_one_refused_file_refuses_all(
    files: Seq<SyncFileView>,
    i: int,
    res: Result<Seq<SyncFileView>, Fault>,
)
    requires
        0 <= i < files.len(),
        files[i].path.contains(';') || forall|k: int|
            0 <= k < files[i].path.len() ==> white(#[trigger] files[i].path[k]),
        forall|j: int| 0 <= j < i ==> leads_inside((#[trigger] files[j]).path),
        files_validated(files, res),
    ensures
        res == Err::<Seq<SyncFileView>, Fault>(Fault::SyncFilePath(files[i].path)),
{
    let path = files[i].path;
    assert(!accepts(files[i])) by {
        if accepts(files[i]) {
            law_blank_or_listed_path_is_refused(path, Ok(slashed(path)));
        }
    }
    if let Err(fault) = res {
        let k = choose|k: int|
            {
                &&& 0 <= k < files.len()
                &&& validated((#[trigger] files[k]).path, Err(fault))
                &&& forall|j: int| 0 <= j < k ==> accepts(#[trigger] files[j])
            };
        if k < i {
            lemma_leads_inside(files[k].path, Err(fault));
        }
        law_blank_or_listed_path_is_refused(path, Err(fault));
    }
}

/// There are ten decimal digits.
pub proof fn law_digits_are_ten(c: char)
    ensures
        is_digit(c) <==> seq!['0', '1', '2', '3', '4', '5', '6', '7', '8', '9'].contains(c),
{
    let all = seq!['0', '1', '2', '3', '4', '5', '6', '7', '8', '9'];
    if is_digit(c) {
        let k = (c as int) - ('0' as int);
        assert(all[k] == c);
    }
}

} // verus!
