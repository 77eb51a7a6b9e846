//! The settings, and the INI text that they are stored in.
use base64::engine::general_purpose::STANDARD;
use base64::Engine;
use vstd::prelude::*;
use vstd::utf8::{decode_utf8, encode_utf8, is_ascii_chars, valid_utf8};

use crate::error::{outcome, Fault, SyncError};
use crate::text::{
    ascii_lower, chars_of, chomp, has_at, has_char, has_text, is_blank, join, join_texts, last_at,
    law_case_is_ignored, law_first_part, law_trim_takes_the_white_space,
    law_white_space_around_is_trimmed, lemma_first_at, lemma_last_at, lemma_last_at_none,
    lemma_lines_terminated, lemma_split_join, lemma_trimmed, lines, lowered, pair,
    same_ignoring_case, same_letters, same_text, split_first, split_last, split_on, split_text,
    split_text_first, split_text_last, terminate_lines, terminated, text_lines, text_of, trim,
    trim_text, trimmed, views, white,
};

verus! {

/// How a selected file is synchronised.
#[derive(Clone, Copy, Debug, PartialEq, Eq, Structural)]
pub enum SyncFileMode {
    /// Both sides get the union of their lines.
    Union,
    /// The newer file replaces the older one.
    Newest,
}

/// A file that the user selected for synchronisation.
#[derive(Debug, PartialEq, Eq)]
pub struct SyncFile {
    /// The path, relative to the RIME user folder.
    pub path: String,
    pub mode: SyncFileMode,
    /// The result is copied back to the RIME user folder.
    pub writeback: bool,
}

/// What a [`SyncFile`] holds.
pub struct SyncFileView {
    pub path: Seq<char>,
    pub mode: SyncFileMode,
    pub writeback: bool,
}

impl View for SyncFile {
    type V = SyncFileView;

    open spec fn view(&self) -> SyncFileView {
        SyncFileView { path: self.path@, mode: self.mode, writeback: self.writeback }
    }
}

impl Clone for SyncFile {
    fn clone(&self) -> (res: Self)
        ensures
            res@ == self@,
    {
        SyncFile { path: self.path.clone(), mode: self.mode, writeback: self.writeback }
    }
}

/// What a list of selected files holds.
pub open spec fn file_views(files: Seq<SyncFile>) -> Seq<SyncFileView> {
    files.map_values(|f: SyncFile| f@)
}

/// The selected file that a list entry denotes: the path, a mode and whether it is
/// written back, divided by slashes. Everything but `N` means written back.
pub open spec fn parsed_entry(entry: Seq<char>) -> Option<SyncFileView> {
    let found = match split_last(entry, "/union/"@) {
        Some((path, flag)) => Some((path, SyncFileMode::Union, flag)),
        None => match split_last(entry, "/newest/"@) {
            Some((path, flag)) => Some((path, SyncFileMode::Newest, flag)),
            None => None,
        },
    };
    match found {
        Some((path, mode, flag)) => if path.len() == 0 {
            None
        } else {
            Some(
                SyncFileView {
                    path,
                    mode,
                    writeback: ascii_lower(flag) != ascii_lower("N"@),
                },
            )
        },
        None => None,
    }
}

/// The selected files that the entries denote, in order.
pub open spec fn parsed_entries(parts: Seq<Seq<char>>) -> Seq<SyncFileView>
    decreases parts.len(),
{
    if parts.len() == 0 {
        Seq::<SyncFileView>::empty()
    } else {
        let files = parsed_entries(parts.drop_last());
        match parsed_entry(trim(parts.last())) {
            Some(file) => files.push(file),
            None => files,
        }
    }
}

fn parse_entry(entry: &str) -> (res: Option<SyncFile>)
    ensures
        match res {
            Some(f) => parsed_entry(entry@) == Some(f@),
            None => parsed_entry(entry@) is None,
        },
{
    let (path, mode, flag) = match split_text_last(entry, "/union/") {
        Some((path, flag)) => (path, SyncFileMode::Union, flag),
        None => match split_text_last(entry, "/newest/") {
            Some((path, flag)) => (path, SyncFileMode::Newest, flag),
            None => {
                return None;
            },
        },
    };
    if path.as_str().is_empty() {
        return None;
    }
    let writeback = !same_ignoring_case(flag.as_str(), "N");
    Some(SyncFile { path, mode, writeback })
}

/// Reads a list of selected files; entries are divided by semicolons.
pub fn parse_sync_file_entries(value: &str) -> (res: Vec<SyncFile>)
    ensures
        file_views(res@) == parsed_entries(split_on(value@, ';')),
{
    let parts = split_text(value, ';');
    let ghost pieces = split_on(value@, ';');
    let mut res: Vec<SyncFile> = Vec::new();
    let mut i: usize = 0;
    assert(file_views(res@) =~= parsed_entries(pieces.take(0)));
    while i < parts.len()
        invariant
            i <= parts@.len(),
            pieces == views(parts@),
            file_views(res@) == parsed_entries(pieces.take(i as int)),
        decreases parts@.len() - i,
    {
        let entry = trim_text(parts[i].as_str());
        let ghost before = file_views(res@);
        assert(pieces.take(i + 1).drop_last() =~= pieces.take(i as int));
        assert(pieces.take(i + 1).last() == parts@[i as int]@);
        match parse_entry(entry.as_str()) {
            Some(file) => {
                let ghost held = file@;
                res.push(file);
                assert(file_views(res@) =~= before.push(held));
            },
            None => {},
        }
        i = i + 1;
    }
    assert(pieces.take(i as int) =~= pieces);
    res
}

/// The name of a mode in a list entry.
pub open spec fn mode_name(mode: SyncFileMode) -> Seq<char> {
    match mode {
        SyncFileMode::Union => "union"@,
        SyncFileMode::Newest => "newest"@,
    }
}

/// The list entry for a selected file.
pub open spec fn entry_text(file: SyncFileView) -> Seq<char> {
    file.path + "/"@ + mode_name(file.mode) + "/"@ + (if file.writeback {
        "Y"@
    } else {
        "N"@
    })
}

/// The list of selected files as text.
pub open spec fn entries_text(files: Seq<SyncFileView>) -> Seq<char> {
    join(files.map_values(|f: SyncFileView| entry_text(f)), ";"@)
}

/// Writes a list of selected files.
pub fn join_sync_file_entries(files: &Vec<SyncFile>) -> (res: String)
    ensures
        res@ == entries_text(file_views(files@)),
{
    let ghost texts = file_views(files@).map_values(|f: SyncFileView| entry_text(f));
    let mut parts: Vec<String> = Vec::new();
    let mut i: usize = 0;
    while i < files.len()
        invariant
            i <= files@.len(),
            texts == file_views(files@).map_values(|f: SyncFileView| entry_text(f)),
            views(parts@) == texts.take(i as int),
        decreases files@.len() - i,
    {
        let mut entry = files[i].path.clone();
        entry.append("/");
        match files[i].mode {
            SyncFileMode::Union => entry.append("union"),
            SyncFileMode::Newest => entry.append("newest"),
        }
        entry.append("/");
        if files[i].writeback {
            entry.append("Y");
        } else {
            entry.append("N");
        }
        let ghost held = entry@;
        let ghost before = views(parts@);
        assert(held == texts[i as int]);
        parts.push(entry);
        assert(views(parts@) =~= before.push(held));
        i = i + 1;
        assert(texts.take(i as int) =~= texts.take(i - 1).push(texts[i - 1]));
    }
    assert(texts.take(i as int) =~= texts);
    join_texts(&parts, ";")
}

/// The files that a plain list of paths names, all with the same mode and none
/// written back.
pub open spec fn plain_files(parts: Seq<Seq<char>>, mode: SyncFileMode) -> Seq<SyncFileView>
    decreases parts.len(),
{
    if parts.len() == 0 {
        Seq::<SyncFileView>::empty()
    } else {
        let files = plain_files(parts.drop_last(), mode);
        let path = trim(parts.last());
        if path.len() == 0 {
            files
        } else {
            files.push(SyncFileView { path, mode, writeback: false })
        }
    }
}

/// Reads a list of paths divided by semicolons.
pub fn parse_legacy_file_list(value: &str, mode: SyncFileMode) -> (res: Vec<SyncFile>)
    ensures
        file_views(res@) == plain_files(split_on(value@, ';'), mode),
{
    let parts = split_text(value, ';');
    let ghost pieces = split_on(value@, ';');
    let mut res: Vec<SyncFile> = Vec::new();
    let mut i: usize = 0;
    assert(file_views(res@) =~= plain_files(pieces.take(0), mode));
    while i < parts.len()
        invariant
            i <= parts@.len(),
            pieces == views(parts@),
            file_views(res@) == plain_files(pieces.take(i as int), mode),
        decreases parts@.len() - i,
    {
        let path = trim_text(parts[i].as_str());
        let ghost before = file_views(res@);
        assert(pieces.take(i + 1).drop_last() =~= pieces.take(i as int));
        assert(pieces.take(i + 1).last() == parts@[i as int]@);
        if !path.as_str().is_empty() {
            let file = SyncFile { path, mode, writeback: false };
            let ghost held = file@;
            res.push(file);
            assert(file_views(res@) =~= before.push(held));
        }
        i = i + 1;
    }
    assert(pieces.take(i as int) =~= pieces);
    res
}

/// `files` has a path that is `path` but for the case of ASCII letters.
pub open spec fn names_path(files: Seq<SyncFileView>, path: Seq<char>) -> bool {
    exists|i: int|
        0 <= i < files.len() && ascii_lower((#[trigger] files[i]).path) == ascii_lower(path)
}

/// The files of `files` whose path `others` does not name.
pub open spec fn not_named(files: Seq<SyncFileView>, others: Seq<SyncFileView>) -> Seq<
    SyncFileView,
>
    decreases files.len(),
{
    if files.len() == 0 {
        files
    } else if names_path(others, files.last().path) {
        not_named(files.drop_last(), others)
    } else {
        not_named(files.drop_last(), others).push(files.last())
    }
}

/// The selected files of the older layout, which keeps one list for each mode. A
/// path in both lists belongs to the newest ones.
pub open spec fn legacy_files(union: Seq<char>, newest: Seq<char>) -> Seq<SyncFileView> {
    let late = plain_files(split_on(newest, ';'), SyncFileMode::Newest);
    not_named(plain_files(split_on(union, ';'), SyncFileMode::Union), late) + late
}

fn is_named(files: &Vec<SyncFile>, path: &str) -> (res: bool)
    ensures
        res == names_path(file_views(files@), path@),
{
    let mut i: usize = 0;
    while i < files.len()
        invariant
            i <= files@.len(),
            forall|j: int|
                0 <= j < i ==> ascii_lower((#[trigger] file_views(files@)[j]).path) != ascii_lower(
                    path@,
                ),
        decreases files@.len() - i,
    {
        assert(file_views(files@)[i as int].path == files@[i as int].path@);
        if same_ignoring_case(files[i].path.as_str(), path) {
            return true;
        }
        i = i + 1;
    }
    false
}

/// Reads the two lists of the older layout.
pub fn parse_legacy_sync_files(union: &str, newest: &str) -> (res: Vec<SyncFile>)
    ensures
        file_views(res@) == legacy_files(union@, newest@),
{
    let files = parse_legacy_file_list(union, SyncFileMode::Union);
    let late = parse_legacy_file_list(newest, SyncFileMode::Newest);
    let ghost early = file_views(files@);
    let ghost others = file_views(late@);
    let mut res: Vec<SyncFile> = Vec::new();
    let mut i: usize = 0;
    assert(file_views(res@) =~= not_named(early.take(0), others));
    while i < files.len()
        invariant
            i <= files@.len(),
            early == file_views(files@),
            others == file_views(late@),
            file_views(res@) == not_named(early.take(i as int), others),
        decreases files@.len() - i,
    {
        let ghost before = file_views(res@);
        assert(early.take(i + 1).drop_last() =~= early.take(i as int));
        assert(early.take(i + 1).last() == files@[i as int]@);
        if !is_named(&late, files[i].path.as_str()) {
            let file = files[i].clone();
            let ghost held = file@;
            res.push(file);
            assert(file_views(res@) =~= before.push(held));
        }
        i = i + 1;
    }
    assert(early.take(i as int) =~= early);
    let ghost kept = file_views(res@);
    let mut j: usize = 0;
    while j < late.len()
        invariant
            j <= late@.len(),
            others == file_views(late@),
            file_views(res@) == kept + others.take(j as int),
        decreases late@.len() - j,
    {
        let file = late[j].clone();
        let ghost held = file@;
        let ghost before = file_views(res@);
        res.push(file);
        assert(file_views(res@) =~= before.push(held));
        j = j + 1;
        assert(others.take(j as int) =~= others.take(j - 1).push(others[j - 1]));
    }
    assert(others.take(j as int) =~= others);
    res
}

/// The values of an INI text, by section and key.
pub type IniValues = Map<(Seq<char>, Seq<char>), Seq<char>>;

/// The section that the lines so far end in, and the values that they give.
pub struct IniState {
    pub section: Seq<char>,
    pub values: IniValues,
}

/// What one line adds. A later line for a key replaces an earlier one.
pub open spec fn ini_step(state: IniState, raw: Seq<char>) -> IniState {
    let line = trim(raw);
    if line.len() > 0 && line[0] == '[' && line.last() == ']' {
        IniState {
            section: lowered(trim(line.subrange(1, line.len() - 1))),
            values: state.values,
        }
    } else if line.len() > 0 && line[0] != ';' && line[0] != '#' {
        match split_first(line, "="@) {
            Some((key, value)) => IniState {
                section: state.section,
                values: state.values.insert((state.section, lowered(trim(key))), trim(value)),
            },
            None => state,
        }
    } else {
        state
    }
}

/// What the given lines say.
pub open spec fn ini_state(all: Seq<Seq<char>>) -> IniState
    decreases all.len(),
{
    if all.len() == 0 {
        IniState { section: Seq::<char>::empty(), values: Map::empty() }
    } else {
        ini_step(ini_state(all.drop_last()), all.last())
    }
}

/// The values that an INI text gives.
pub open spec fn ini_values(text: Seq<char>) -> IniValues {
    ini_state(lines(text)).values
}

/// The value for a key, or the empty text.
pub open spec fn ini_value(values: IniValues, section: Seq<char>, key: Seq<char>) -> Seq<char> {
    if values.contains_key((section, key)) {
        values[(section, key)]
    } else {
        Seq::<char>::empty()
    }
}

/// One value of an INI text.
pub struct IniEntry {
    pub section: String,
    pub key: String,
    pub value: String,
}

/// The values of an INI text, in the order of their lines.
pub struct Ini {
    pub entries: Vec<IniEntry>,
}

/// The values that a list of entries gives: the last entry for a key counts.
pub open spec fn entry_values(entries: Seq<IniEntry>) -> IniValues
    decreases entries.len(),
{
    if entries.len() == 0 {
        Map::empty()
    } else {
        entry_values(entries.drop_last()).insert(
            (entries.last().section@, entries.last().key@),
            entries.last().value@,
        )
    }
}

impl View for Ini {
    type V = IniValues;

    open spec fn view(&self) -> IniValues {
        entry_values(self.entries@)
    }
}

impl Ini {
    /// Returns the value for a key, or the empty text.
    pub fn get(&self, section: &str, key: &str) -> (res: String)
        ensures
            res@ == ini_value(self@, section@, key@),
    {
        let mut n: usize = self.entries.len();
        assert(self.entries@.take(n as int) =~= self.entries@);
        while n > 0
            invariant
                n <= self.entries@.len(),
                ini_value(self@, section@, key@) == ini_value(
                    entry_values(self.entries@.take(n as int)),
                    section@,
                    key@,
                ),
            decreases n,
        {
            let entry = &self.entries[n - 1];
            assert(self.entries@.take(n as int).drop_last() =~= self.entries@.take(n - 1));
            if same_text(entry.section.as_str(), section) && same_text(entry.key.as_str(), key) {
                return entry.value.clone();
            }
            n = n - 1;
        }
        String::new()
    }
}

/// Reads an INI text: `[section]` lines, `key=value` lines, and comments that start
/// with `;` or `#`. Sections and keys are lower-cased.
pub fn parse_ini(text: &str) -> (res: Ini)
    ensures
        res@ == ini_values(text@),
{
    let all = text_lines(text);
    let ghost pieces = lines(text@);
    let mut entries: Vec<IniEntry> = Vec::new();
    let mut section = String::new();
    let mut i: usize = 0;
    assert(entry_values(entries@) =~= ini_state(pieces.take(0)).values);
    while i < all.len()
        invariant
            i <= all@.len(),
            pieces == views(all@),
            section@ == ini_state(pieces.take(i as int)).section,
            entry_values(entries@) == ini_state(pieces.take(i as int)).values,
        decreases all@.len() - i,
    {
        let line = trim_text(all[i].as_str());
        let chars = chars_of(line.as_str());
        let n = chars.len();
        assert(pieces.take(i + 1).drop_last() =~= pieces.take(i as int));
        assert(pieces.take(i + 1).last() == all@[i as int]@);
        let ghost before = ini_state(pieces.take(i as int));
        if n > 0 && chars[0] == '[' && chars[n - 1] == ']' {
            let name = text_of(&chars, 1, n - 1);
            let name = trim_text(name.as_str());
            section = name.as_str().to_lowercase();
        } else if n > 0 && chars[0] != ';' && chars[0] != '#' {
            match split_text_first(line.as_str(), "=") {
                Some((key, value)) => {
                    let key = trim_text(key.as_str());
                    let value = trim_text(value.as_str());
                    let ghost old_entries = entries@;
                    entries.push(
                        IniEntry {
                            section: section.clone(),
                            key: key.as_str().to_lowercase(),
                            value,
                        },
                    );
                    assert(entries@.drop_last() =~= old_entries);
                },
                None => {},
            }
        }
        assert(ini_state(pieces.take(i + 1)) == ini_step(before, all@[i as int]@));
        i = i + 1;
    }
    assert(pieces.take(i as int) =~= pieces);
    Ini { entries }
}

/// What the Base64 decoder of the standard alphabet makes of a text.
pub uninterp spec fn base64_decoded(text: Seq<char>) -> Option<Seq<u8>>;

/// What the Base64 encoder of the standard alphabet makes of some bytes.
pub uninterp spec fn base64_encoded(bytes: Seq<u8>) -> Seq<char>;

/// A character of the standard Base64 alphabet, or its padding.
pub open spec fn base64_char(c: char) -> bool {
    'A' <= c <= 'Z' || 'a' <= c <= 'z' || '0' <= c <= '9' || c == '+' || c == '/' || c == '='
}

/// The error of the Base64 decoder.
#[verifier::external_type_specification]
#[verifier::external_body]
pub struct ExDecodeError(base64::DecodeError);

/// `Engine::decode` of `base64` with the standard padded alphabet: its outcome is a
/// function of the text.
#[verifier::external_body]
fn base64_decode(text: &str) -> (res: Result<Vec<u8>, base64::DecodeError>)
    ensures
        match res {
            Ok(bytes) => base64_decoded(text@) == Some(bytes@),
            Err(_) => base64_decoded(text@) is None,
        },
{
    STANDARD.decode(text)
}

/// `Engine::encode` of `base64` with the standard padded alphabet: its outcome is a
/// function of the bytes, holds characters of the alphabet only, is empty for no
/// bytes alone, and decodes to the bytes again. The encoder panics where its output
/// cannot be allocated.
#[verifier::external_body]
fn base64_encode(bytes: &[u8]) -> (res: String)
    requires
        bytes@.len() / 3 * 4 + 4 <= isize::MAX,
    ensures
        res@ == base64_encoded(bytes@),
        base64_decoded(res@) == Some(bytes@),
        forall|i: int| 0 <= i < res@.len() ==> base64_char(#[trigger] res@[i]),
        res@.len() == 0 <==> bytes@.len() == 0,
{
    STANDARD.encode(bytes)
}

/// The user's settings.
pub struct Settings {
    pub user_data_dir: String,
    pub deployer_path: String,
    pub webdav_url: String,
    pub username: String,
    pub password: String,
    pub sync_files: Vec<SyncFile>,
}

/// What [`Settings`] hold.
#[verifier::ext_equal]
pub struct SettingsView {
    pub user_data_dir: Seq<char>,
    pub deployer_path: Seq<char>,
    pub webdav_url: Seq<char>,
    pub username: Seq<char>,
    pub password: Seq<char>,
    pub sync_files: Seq<SyncFileView>,
}

impl View for Settings {
    type V = SettingsView;

    open spec fn view(&self) -> SettingsView {
        SettingsView {
            user_data_dir: self.user_data_dir@,
            deployer_path: self.deployer_path@,
            webdav_url: self.webdav_url@,
            username: self.username@,
            password: self.password@,
            sync_files: file_views(self.sync_files@),
        }
    }
}

/// Copies a list of selected files.
pub fn clone_files(files: &Vec<SyncFile>) -> (res: Vec<SyncFile>)
    ensures
        file_views(res@) == file_views(files@),
{
    let mut res: Vec<SyncFile> = Vec::new();
    let mut i: usize = 0;
    while i < files.len()
        invariant
            i <= files@.len(),
            file_views(res@) == file_views(files@).take(i as int),
        decreases files@.len() - i,
    {
        let file = files[i].clone();
        let ghost held = file@;
        let ghost before = file_views(res@);
        res.push(file);
        assert(file_views(res@) =~= before.push(held));
        i = i + 1;
        assert(file_views(files@).take(i as int) =~= file_views(files@).take(i - 1).push(held));
    }
    assert(file_views(files@).take(i as int) =~= file_views(files@));
    res
}

impl Clone for Settings {
    fn clone(&self) -> (res: Self)
        ensures
            res@ == self@,
    {
        Settings {
            user_data_dir: self.user_data_dir.clone(),
            deployer_path: self.deployer_path.clone(),
            webdav_url: self.webdav_url.clone(),
            username: self.username.clone(),
            password: self.password.clone(),
            sync_files: clone_files(&self.sync_files),
        }
    }
}

/// Settings of which none is made.
pub open spec fn no_settings() -> SettingsView {
    SettingsView {
        user_data_dir: Seq::empty(),
        deployer_path: Seq::empty(),
        webdav_url: Seq::empty(),
        username: Seq::empty(),
        password: Seq::empty(),
        sync_files: Seq::empty(),
    }
}

impl Default for Settings {
    fn default() -> (res: Self)
        ensures
            res@ == no_settings(),
    {
        let res = Settings {
            user_data_dir: String::new(),
            deployer_path: String::new(),
            webdav_url: String::new(),
            username: String::new(),
            password: String::new(),
            sync_files: Vec::new(),
        };
        assert(file_views(res.sync_files@) =~= Seq::empty());
        res
    }
}

/// `first`, or `second` where `first` is empty.
pub open spec fn nonempty_or(first: Seq<char>, second: Seq<char>) -> Seq<char> {
    if first.len() == 0 {
        second
    } else {
        first
    }
}

/// Takes `first`, or `second` where `first` is empty.
pub fn or_else_nonempty(first: String, second: String) -> (res: String)
    ensures
        res@ == nonempty_or(first@, second@),
{
    if first.as_str().is_empty() {
        second
    } else {
        first
    }
}

/// How the error of `String::from_utf8` reads.
pub uninterp spec fn utf8_error(bytes: Seq<u8>) -> Seq<char>;

/// The text of the error that `String::from_utf8` gives for the bytes, and no text where
/// it gives none.
#[verifier::external_body]
fn utf8_error_text(bytes: Vec<u8>) -> (res: String)
    ensures
        res@ == utf8_error(bytes@),
{
    match String::from_utf8(bytes) {
        Ok(_) => String::new(),
        Err(e) => e.to_string(),
    }
}

/// The password that decoded Base64 stands for, or why there is none.
pub open spec fn password_text(decoded: Option<Seq<u8>>) -> Result<Seq<char>, Fault> {
    match decoded {
        None => Err(Fault::PasswordBase64),
        Some(bytes) => if valid_utf8(bytes) {
            Ok(decode_utf8(bytes))
        } else {
            Err(Fault::PasswordUtf8(utf8_error(bytes)))
        },
    }
}

/// The password that the values give: in Base64, or else as plain text.
pub open spec fn stored_password(values: IniValues) -> Result<Seq<char>, Fault> {
    let encoded = ini_value(values, "webdav"@, "password_base64"@);
    if encoded.len() == 0 {
        Ok(ini_value(values, "webdav"@, "password"@))
    } else {
        password_text(base64_decoded(encoded))
    }
}

/// The selected files that the values give.
pub open spec fn stored_files(values: IniValues) -> Seq<SyncFileView> {
    let files = parsed_entries(split_on(ini_value(values, "sync_files"@, "file"@), ';'));
    if files.len() == 0 {
        legacy_files(
            ini_value(values, "sync_files"@, "union"@),
            ini_value(values, "sync_files"@, "newest"@),
        )
    } else {
        files
    }
}

/// The settings that an INI text gives.
pub open spec fn loaded(text: Seq<char>) -> Result<SettingsView, Fault> {
    let values = ini_values(text);
    match stored_password(values) {
        Err(fault) => Err(fault),
        Ok(password) => Ok(
            SettingsView {
                user_data_dir: nonempty_or(
                    ini_value(values, "rime"@, "user_data_dir"@),
                    ini_value(values, "weasel"@, "user_data_dir"@),
                ),
                deployer_path: nonempty_or(
                    ini_value(values, "rime"@, "deployer_path"@),
                    ini_value(values, "weasel"@, "deployer_path"@),
                ),
                webdav_url: ini_value(values, "webdav"@, "url"@),
                username: ini_value(values, "webdav"@, "username"@),
                password,
                sync_files: stored_files(values),
            },
        ),
    }
}

/// The lines of the INI text for some settings, whose password is `encoded`.
pub open spec fn saved_lines(settings: SettingsView, encoded: Seq<char>) -> Seq<Seq<char>> {
    seq![
        "[rime]"@,
        "user_data_dir="@ + settings.user_data_dir,
        "deployer_path="@ + settings.deployer_path,
        ""@,
        "[webdav]"@,
        "url="@ + settings.webdav_url,
        "username="@ + settings.username,
        "password_base64="@ + encoded,
        ""@,
        "[sync_files]"@,
        "file="@ + entries_text(settings.sync_files),
    ]
}

/// Reads a password that was stored as Base64, of which it is known what the Base64
/// stands for, if it is Base64.
pub fn read_password(decoded: Option<Vec<u8>>) -> (res: Result<String, SyncError>)
    ensures
        outcome(res) == password_text(match decoded {
            Some(bytes) => Some(bytes@),
            None => None,
        }),
{
    match decoded {
        Some(bytes) => {
            let copy = bytes.clone();
            match String::from_utf8(bytes) {
                Ok(password) => Ok(password),
                Err(_) => {
                    assert(copy@ =~= bytes@);
                    Err(SyncError::PasswordUtf8(utf8_error_text(copy)))
                },
            }
        },
        None => Err(SyncError::PasswordBase64),
    }
}

impl Settings {
    /// Reads the settings from an INI text.
    pub fn load(text: &str) -> (res: Result<Self, SyncError>)
        ensures
            match res {
                Ok(settings) => loaded(text@) == Ok::<SettingsView, Fault>(settings@),
                Err(e) => loaded(text@) == Err::<SettingsView, Fault>(e@),
            },
    {
        let ini = parse_ini(text);
        let encoded = ini.get("webdav", "password_base64");
        let password = if encoded.as_str().is_empty() {
            ini.get("webdav", "password")
        } else {
            let decoded = match base64_decode(encoded.as_str()) {
                Ok(bytes) => Some(bytes),
                Err(_) => None,
            };
            match read_password(decoded) {
                Ok(password) => password,
                Err(e) => {
                    return Err(e);
                },
            }
        };
        let list = ini.get("sync_files", "file");
        let listed = parse_sync_file_entries(list.as_str());
        assert(listed@.len() == file_views(listed@).len());
        let sync_files = if listed.len() == 0 {
            let union = ini.get("sync_files", "union");
            let newest = ini.get("sync_files", "newest");
            parse_legacy_sync_files(union.as_str(), newest.as_str())
        } else {
            listed
        };
        Ok(
            Settings {
                user_data_dir: or_else_nonempty(
                    ini.get("rime", "user_data_dir"),
                    ini.get("weasel", "user_data_dir"),
                ),
                deployer_path: or_else_nonempty(
                    ini.get("rime", "deployer_path"),
                    ini.get("weasel", "deployer_path"),
                ),
                webdav_url: ini.get("webdav", "url"),
                username: ini.get("webdav", "username"),
                password,
                sync_files,
            },
        )
    }

    /// Writes the settings as an INI text. Reading the text gives the settings
    /// back, if they are [`storable`].
    pub fn save(&self) -> (res: String)
        requires
            encode_utf8(self.password@).len() / 3 * 4 + 4 <= isize::MAX,
        ensures
            res@ == terminated(
                saved_lines(self@, base64_encoded(encode_utf8(self.password@))),
            ),
            storable(self@) ==> loaded(res@) == Ok::<SettingsView, Fault>(self@),
    {
        let encoded = base64_encode(self.password.as_str().as_bytes());
        let files = join_sync_file_entries(&self.sync_files);
        let mut all: Vec<String> = Vec::new();
        all.push("[rime]".to_owned());
        all.push(pair("user_data_dir=", self.user_data_dir.as_str()));
        all.push(pair("deployer_path=", self.deployer_path.as_str()));
        all.push("".to_owned());
        all.push("[webdav]".to_owned());
        all.push(pair("url=", self.webdav_url.as_str()));
        all.push(pair("username=", self.username.as_str()));
        all.push(pair("password_base64=", encoded.as_str()));
        all.push("".to_owned());
        all.push("[sync_files]".to_owned());
        all.push(pair("file=", files.as_str()));
        assert(views(all@) =~= saved_lines(self@, encoded@));
        proof {
            if storable(self@) {
                law_settings_round_trip(self@, encoded@);
            }
        }
        terminate_lines(&all)
    }
}

/// An installation id that must not name a folder next to `WebDAV`.
pub open spec fn unsafe_id(value: Seq<char>) -> bool {
    ||| trim(value).len() == 0
    ||| value == "."@
    ||| value == ".."@
    ||| ascii_lower(value) == ascii_lower("WebDAV"@)
    ||| value.contains('/')
    ||| value.contains('\\')
}

/// Refuses an installation id that cannot name this device's sync folder.
pub fn validate_installation_id(value: &str) -> (res: Result<(), SyncError>)
    ensures
        res is Err <==> unsafe_id(value@),
        res matches Err(e) ==> e@ == Fault::InstallationId(value@),
{
    if is_blank(value) || same_text(value, ".") || same_text(value, "..") || same_ignoring_case(
        value,
        "WebDAV",
    ) || has_char(value, '/') || has_char(value, '\\') {
        Err(SyncError::InstallationId(value.to_owned()))
    } else {
        Ok(())
    }
}

/// A selected file that a list entry can carry: its path is not empty, starts with
/// no white space, holds no semicolon, and cannot be taken for the entry of a file with
/// the other mode.
pub open spec fn storable_file(file: SyncFileView) -> bool {
    &&& file.path.len() > 0
    &&& !white(file.path[0])
    &&& !file.path.contains(';')
    &&& file.mode == SyncFileMode::Newest ==> !has_text(file.path + "/"@, "/union/"@)
}

/// A text that an INI value can carry.
pub open spec fn storable_text(text: Seq<char>) -> bool {
    trimmed(text) && !text.contains('\n')
}

/// Settings that an INI text can carry.
pub open spec fn storable(settings: SettingsView) -> bool {
    &&& storable_text(settings.user_data_dir)
    &&& storable_text(settings.deployer_path)
    &&& storable_text(settings.webdav_url)
    &&& storable_text(settings.username)
    &&& forall|i: int|
        0 <= i < settings.sync_files.len() ==> storable_file(#[trigger] settings.sync_files[i])
            && !settings.sync_files[i].path.contains('\n')
}

proof fn lemma_union_entry(path: Seq<char>, flag: Seq<char>)
    requires
        flag.len() == 1,
    ensures
        split_last(path + "/union/"@ + flag, "/union/"@) == Some((path, flag)),
{
    reveal_strlit("/union/");
    let pat = "/union/"@;
    let entry = path + pat + flag;
    let n = path.len() as int;
    assert(entry.subrange(n, n + 7) =~= pat);
    assert forall|j: int| n < j < entry.len() + 1 implies !has_at(entry, j, pat) by {
        if has_at(entry, j, pat) {
            assert(j == n + 1);
            assert(entry.subrange(j, j + 7)[0] == entry[n + 1]);
            assert(entry[n + 1] == pat[1]);
        }
    }
    lemma_last_at(entry, pat, entry.len() as int + 1, n);
    assert(entry.take(n) =~= path);
    assert(entry.skip(n + 7) =~= flag);
}

proof fn lemma_newest_entry(path: Seq<char>, flag: Seq<char>)
    requires
        flag.len() == 1,
        !has_text(path + "/"@, "/union/"@),
    ensures
        split_last(path + "/newest/"@ + flag, "/union/"@) is None,
        split_last(path + "/newest/"@ + flag, "/newest/"@) == Some((path, flag)),
{
    reveal_strlit("/");
    reveal_strlit("/union/");
    reveal_strlit("/newest/");
    let other = "/union/"@;
    let pat = "/newest/"@;
    let entry = path + pat + flag;
    let n = path.len() as int;
    assert forall|j: int| 0 <= j < entry.len() + 1 implies !has_at(entry, j, other) by {
        if has_at(entry, j, other) {
            let window = entry.subrange(j, j + 7);
            assert(forall|k: int| 0 <= k < 7 ==> #[trigger] window[k] == entry[j + k]);
            if j + 7 <= n + 1 {
                assert((path + "/"@).subrange(j, j + 7) =~= window);
                assert(has_at(path + "/"@, j, other));
            } else if j <= n {
                assert(window[n - j] == entry[n]);
                assert(entry[n] == pat[0]);
                assert(n - j == 0 || n - j == 6);
                assert(n == j);
                assert(window[1] == entry[n + 1]);
                assert(entry[n + 1] == pat[1]);
            } else {
                assert(window[0] == entry[j]);
                assert(j == n + 1 || j == n + 2);
                assert(entry[n + 1] == pat[1]);
                assert(entry[n + 2] == pat[2]);
            }
        }
    }
    lemma_last_at_none(entry, other, entry.len() as int + 1);
    assert(entry.subrange(n, n + 8) =~= pat);
    assert forall|j: int| n < j < entry.len() + 1 implies !has_at(entry, j, pat) by {
        if has_at(entry, j, pat) {
            assert(j == n + 1);
            assert(entry.subrange(j, j + 8)[0] == entry[n + 1]);
            assert(entry[n + 1] == pat[1]);
        }
    }
    lemma_last_at(entry, pat, entry.len() as int + 1, n);
    assert(entry.take(n) =~= path);
    assert(entry.skip(n + 8) =~= flag);
}

/// A list entry reads back as the file that it was written for.
proof fn lemma_entry_round_trip(file: SyncFileView)
    requires
        storable_file(file),
    ensures
        trim(entry_text(file)) == entry_text(file),
        parsed_entry(entry_text(file)) == Some(file),
        !entry_text(file).contains(';'),
        !file.path.contains('\n') ==> !entry_text(file).contains('\n'),
        entry_text(file).len() > 0,
        trimmed(entry_text(file)),
{
    reveal_strlit("/");
    reveal_strlit("union");
    reveal_strlit("newest");
    reveal_strlit("/union/");
    reveal_strlit("/newest/");
    reveal_strlit("Y");
    reveal_strlit("N");
    let entry = entry_text(file);
    let flag = if file.writeback {
        "Y"@
    } else {
        "N"@
    };
    assert(entry[0] == file.path[0]);
    assert(entry.last() == flag[0]);
    lemma_trimmed(entry);
    if file.mode == SyncFileMode::Union {
        assert("/"@ + mode_name(file.mode) + "/"@ =~= "/union/"@);
        assert(entry =~= file.path + "/union/"@ + flag);
        lemma_union_entry(file.path, flag);
    } else {
        assert("/"@ + mode_name(file.mode) + "/"@ =~= "/newest/"@);
        assert(entry =~= file.path + "/newest/"@ + flag);
        lemma_newest_entry(file.path, flag);
    }
    assert(ascii_lower("Y"@)[0] == 'y');
    assert(ascii_lower("N"@)[0] == 'n');
    let tail = "/"@ + mode_name(file.mode) + "/"@ + flag;
    assert(entry =~= file.path + tail);
    assert forall|i: int| 0 <= i < entry.len() implies entry[i] != ';' && (entry[i]
        != '\n' || file.path.contains('\n')) by {
        if i < file.path.len() {
            assert(entry[i] == file.path[i]);
            assert(file.path.contains(entry[i]));
        } else {
            assert(entry[i] == tail[i - file.path.len()]);
        }
    }
}

proof fn lemma_entries_round_trip(files: Seq<SyncFileView>)
    requires
        forall|i: int| 0 <= i < files.len() ==> storable_file(#[trigger] files[i]),
    ensures
        parsed_entries(files.map_values(|f: SyncFileView| entry_text(f))) == files,
    decreases files.len(),
{
    let texts = files.map_values(|f: SyncFileView| entry_text(f));
    if files.len() == 0 {
        assert(parsed_entries(texts) =~= files);
    } else {
        let init = files.drop_last();
        assert forall|i: int| 0 <= i < init.len() implies storable_file(#[trigger] init[i]) by {
            assert(init[i] == files[i]);
        }
        lemma_entries_round_trip(init);
        assert(texts.drop_last() =~= init.map_values(|f: SyncFileView| entry_text(f)));
        assert(storable_file(files[files.len() - 1]));
        lemma_entry_round_trip(files.last());
        assert(init.push(files.last()) =~= files);
    }
}

/// Reading a list of selected files gives back the files that it was written for.
pub proof fn law_sync_files_round_trip(files: Seq<SyncFileView>)
    requires
        forall|i: int| 0 <= i < files.len() ==> storable_file(#[trigger] files[i]),
    ensures
        parsed_entries(split_on(entries_text(files), ';')) == files,
{
    let texts = files.map_values(|f: SyncFileView| entry_text(f));
    reveal_strlit(";");
    assert(";"@ =~= seq![';']);
    if files.len() == 0 {
        let blank = seq![Seq::<char>::empty()];
        assert(split_on(entries_text(files), ';') == blank);
        assert(trim(Seq::<char>::empty()) == Seq::<char>::empty());
        reveal_strlit("/union/");
        reveal_strlit("/newest/");
        assert(blank.drop_last() =~= Seq::<Seq<char>>::empty());
        let empty = Seq::<char>::empty();
        assert(last_at(empty, "/union/"@, 1) == last_at(empty, "/union/"@, 0));
        assert(last_at(empty, "/newest/"@, 1) == last_at(empty, "/newest/"@, 0));
        assert(parsed_entries(blank.drop_last()) =~= files);
    } else {
        assert forall|i: int| 0 <= i < texts.len() implies !(#[trigger] texts[i]).contains(';') by {
            assert(storable_file(files[i]));
            lemma_entry_round_trip(files[i]);
        }
        lemma_split_join(texts, ';');
        lemma_entries_round_trip(files);
    }
}

/// An INI value can carry a list of files whose paths are of one line.
proof fn lemma_entries_storable(files: Seq<SyncFileView>)
    requires
        forall|i: int|
            0 <= i < files.len() ==> storable_file(#[trigger] files[i]) && !files[i].path.contains(
                '\n',
            ),
    ensures
        storable_text(entries_text(files)),
{
    let texts = files.map_values(|f: SyncFileView| entry_text(f));
    reveal_strlit(";");
    assert(";"@ =~= seq![';']);
    if files.len() > 0 {
        assert forall|i: int| 0 <= i < texts.len() implies !(#[trigger] texts[i]).contains('\n')
            && trimmed(texts[i]) && texts[i].len() > 0 by {
            assert(storable_file(files[i]));
            lemma_entry_round_trip(files[i]);
        }
        lemma_join_storable(texts);
    }
}

proof fn lemma_storable_pair(head: Seq<char>, tail: Seq<char>)
    requires
        storable_text(head),
        storable_text(tail),
        head.len() > 0,
        tail.len() > 0,
    ensures
        storable_text(head + seq![';'] + tail),
{
    let text = head + seq![';'] + tail;
    assert(text[0] == head[0]);
    assert(text.last() == tail.last());
    assert forall|i: int| 0 <= i < text.len() implies text[i] != '\n' by {
        if i < head.len() {
            assert(head.contains(head[i]));
        } else if i > head.len() {
            assert(text[i] == tail[i - head.len() - 1]);
            assert(tail.contains(tail[i - head.len() - 1]));
        }
    }
}

proof fn lemma_join_storable(texts: Seq<Seq<char>>)
    requires
        texts.len() > 0,
        forall|i: int|
            0 <= i < texts.len() ==> !(#[trigger] texts[i]).contains('\n') && trimmed(texts[i])
                && texts[i].len() > 0,
    ensures
        storable_text(join(texts, seq![';'])),
        join(texts, seq![';']).len() > 0,
    decreases texts.len(),
{
    if texts.len() > 1 {
        let init = texts.drop_last();
        assert forall|i: int| 0 <= i < init.len() implies !(#[trigger] init[i]).contains('\n')
            && trimmed(init[i]) && init[i].len() > 0 by {
            assert(init[i] == texts[i]);
        }
        lemma_join_storable(init);
        lemma_storable_pair(join(init, seq![';']), texts[texts.len() - 1]);
    } else {
        assert(!texts[0].contains('\n'));
    }
}

/// A name that an INI text carries unchanged: lower-case letters, digits and
/// underscores.
spec fn plain_name(name: Seq<char>) -> bool {
    name.len() > 0 && forall|i: int|
        0 <= i < name.len() ==> 'a' <= #[trigger] name[i] <= 'z' || '0' <= name[i] <= '9'
            || name[i] == '_'
}

proof fn lemma_plain_name(name: Seq<char>)
    requires
        plain_name(name),
    ensures
        lowered(trim(name)) == name,
        trim(name) == name,
        !name.contains('='),
        !white(name[0]),
        name[0] != '[' && name[0] != ';' && name[0] != '#',
{
    lemma_trimmed(name);
    assert(is_ascii_chars(name));
    assert(ascii_lower(name) =~= name);
}

/// What a line `name=value` adds.
proof fn lemma_ini_pair(state: IniState, name: Seq<char>, value: Seq<char>)
    requires
        plain_name(name),
        trimmed(value),
    ensures
        ini_step(state, name + "="@ + value) == (IniState {
            section: state.section,
            values: state.values.insert((state.section, name), value),
        }),
{
    reveal_strlit("=");
    lemma_plain_name(name);
    let line = name + "="@ + value;
    let n = name.len() as int;
    assert(line[0] == name[0]);
    assert(line.last() == (if value.len() == 0 {
        '='
    } else {
        value.last()
    }));
    lemma_trimmed(line);
    assert(line.subrange(n, n + 1) =~= "="@);
    assert forall|j: int| 0 <= j < n implies !has_at(line, j, "="@) by {
        if has_at(line, j, "="@) {
            assert(line.subrange(j, j + 1)[0] == name[j]);
            assert(name.contains('='));
        }
    }
    lemma_first_at(line, "="@, 0, n);
    assert(line.take(n) =~= name);
    assert(line.skip(n + 1) =~= value);
    lemma_trimmed(value);
}

/// What a line `[name]` changes.
proof fn lemma_ini_section(state: IniState, name: Seq<char>, line: Seq<char>)
    requires
        plain_name(name),
        line == seq!['['] + name + seq![']'],
    ensures
        ini_step(state, line) == (IniState { section: name, values: state.values }),
{
    lemma_plain_name(name);
    assert(line[0] == '[' && line.last() == ']');
    lemma_trimmed(line);
    assert(line.subrange(1, line.len() - 1) =~= name);
}

/// The names in the INI text are pairwise different.
proof fn lemma_names_differ()
    ensures
        "rime"@.len() == 4,
        "webdav"@.len() == 6,
        "weasel"@.len() == 6,
        "sync_files"@.len() == 10,
        "user_data_dir"@.len() == 13,
        "deployer_path"@.len() == 13,
        "url"@.len() == 3,
        "username"@.len() == 8,
        "password"@.len() == 8,
        "password_base64"@.len() == 15,
        "file"@.len() == 4,
        "union"@.len() == 5,
        "newest"@.len() == 6,
        "webdav"@[2] == 'b',
        "weasel"@[2] == 'a',
        "user_data_dir"@[0] == 'u',
        "deployer_path"@[0] == 'd',
        "username"@[0] == 'u',
        "password"@[0] == 'p',
{
    reveal_strlit("rime");
    reveal_strlit("webdav");
    reveal_strlit("weasel");
    reveal_strlit("sync_files");
    reveal_strlit("user_data_dir");
    reveal_strlit("deployer_path");
    reveal_strlit("url");
    reveal_strlit("username");
    reveal_strlit("password");
    reveal_strlit("password_base64");
    reveal_strlit("file");
    reveal_strlit("union");
    reveal_strlit("newest");
}

/// The INI text's own names are plain, and its lines are made of them.
proof fn lemma_names_plain()
    ensures
        plain_name("rime"@),
        plain_name("webdav"@),
        plain_name("sync_files"@),
        plain_name("user_data_dir"@),
        plain_name("deployer_path"@),
        plain_name("url"@),
        plain_name("username"@),
        plain_name("password_base64"@),
        plain_name("file"@),
        "user_data_dir="@ == "user_data_dir"@ + "="@,
        "deployer_path="@ == "deployer_path"@ + "="@,
        "url="@ == "url"@ + "="@,
        "username="@ == "username"@ + "="@,
        "password_base64="@ == "password_base64"@ + "="@,
        "file="@ == "file"@ + "="@,
        "[rime]"@ == seq!['['] + "rime"@ + seq![']'],
        "[webdav]"@ == seq!['['] + "webdav"@ + seq![']'],
        "[sync_files]"@ == seq!['['] + "sync_files"@ + seq![']'],
{
    reveal_strlit("rime");
    reveal_strlit("webdav");
    reveal_strlit("sync_files");
    reveal_strlit("user_data_dir");
    reveal_strlit("deployer_path");
    reveal_strlit("url");
    reveal_strlit("username");
    reveal_strlit("password_base64");
    reveal_strlit("file");
    reveal_strlit("user_data_dir=");
    reveal_strlit("deployer_path=");
    reveal_strlit("url=");
    reveal_strlit("username=");
    reveal_strlit("password_base64=");
    reveal_strlit("file=");
    reveal_strlit("[rime]");
    reveal_strlit("[webdav]");
    reveal_strlit("[sync_files]");
    reveal_strlit("=");
    assert("user_data_dir="@ =~= "user_data_dir"@ + "="@);
    assert("deployer_path="@ =~= "deployer_path"@ + "="@);
    assert("url="@ =~= "url"@ + "="@);
    assert("username="@ =~= "username"@ + "="@);
    assert("password_base64="@ =~= "password_base64"@ + "="@);
    assert("file="@ =~= "file"@ + "="@);
    assert("[rime]"@ =~= seq!['['] + "rime"@ + seq![']']);
    assert("[webdav]"@ =~= seq!['['] + "webdav"@ + seq![']']);
    assert("[sync_files]"@ =~= seq!['['] + "sync_files"@ + seq![']']);
}

/// A line `name=value` holds no line end.
proof fn lemma_pair_plain(name: Seq<char>, value: Seq<char>)
    requires
        plain_name(name),
        storable_text(value),
    ensures
        !(name + "="@ + value).contains('\n'),
        chomp(name + "="@ + value) == name + "="@ + value,
{
    reveal_strlit("=");
    let line = name + "="@ + value;
    assert forall|i: int| 0 <= i < line.len() implies line[i] != '\n' by {
        if i > name.len() {
            assert(line[i] == value[i - name.len() - 1]);
            assert(value.contains(line[i]));
        } else if i < name.len() {
            assert(line[i] == name[i]);
        }
    }
    assert(line.last() == (if value.len() == 0 {
        '='
    } else {
        value.last()
    }));
}

/// The stored password is a text that an INI value can carry.
proof fn lemma_encoded_storable(encoded: Seq<char>)
    requires
        forall|i: int| 0 <= i < encoded.len() ==> base64_char(#[trigger] encoded[i]),
    ensures
        storable_text(encoded),
{
}

/// No line of the INI text holds a line end.
proof fn lemma_saved_lines_plain(settings: SettingsView, encoded: Seq<char>)
    requires
        storable(settings),
        storable_text(entries_text(settings.sync_files)),
        forall|i: int| 0 <= i < encoded.len() ==> base64_char(#[trigger] encoded[i]),
    ensures
        forall|i: int|
            0 <= i < saved_lines(settings, encoded).len() ==> !(#[trigger] saved_lines(
                settings,
                encoded,
            )[i]).contains('\n') && chomp(saved_lines(settings, encoded)[i]) == saved_lines(
                settings,
                encoded,
            )[i],
{
    lemma_encoded_storable(encoded);
    lemma_names_plain();
    lemma_pair_plain("user_data_dir"@, settings.user_data_dir);
    lemma_pair_plain("deployer_path"@, settings.deployer_path);
    lemma_pair_plain("url"@, settings.webdav_url);
    lemma_pair_plain("username"@, settings.username);
    lemma_pair_plain("password_base64"@, encoded);
    lemma_pair_plain("file"@, entries_text(settings.sync_files));
    reveal_strlit("");
    reveal_strlit("[rime]");
    reveal_strlit("[webdav]");
    reveal_strlit("[sync_files]");
    let all = saved_lines(settings, encoded);
    assert(all.len() == 11);
}

/// The values that the INI text gives.
proof fn lemma_saved_values(settings: SettingsView, encoded: Seq<char>)
    requires
        storable(settings),
        storable_text(entries_text(settings.sync_files)),
        forall|i: int| 0 <= i < encoded.len() ==> base64_char(#[trigger] encoded[i]),
    ensures
        ini_state(saved_lines(settings, encoded)).values == Map::<
            (Seq<char>, Seq<char>),
            Seq<char>,
        >::empty().insert(("rime"@, "user_data_dir"@), settings.user_data_dir).insert(
            ("rime"@, "deployer_path"@),
            settings.deployer_path,
        ).insert(("webdav"@, "url"@), settings.webdav_url).insert(
            ("webdav"@, "username"@),
            settings.username,
        ).insert(("webdav"@, "password_base64"@), encoded).insert(
            ("sync_files"@, "file"@),
            entries_text(settings.sync_files),
        ),
{
    let all = saved_lines(settings, encoded);
    lemma_encoded_storable(encoded);
    lemma_names_plain();
    reveal_strlit("");
    let s0 = ini_state(all.take(0));
    assert(all.take(1).drop_last() =~= all.take(0));
    let s1 = ini_state(all.take(1));
    lemma_ini_section(s0, "rime"@, "[rime]"@);
    assert(all.take(2).drop_last() =~= all.take(1));
    let s2 = ini_state(all.take(2));
    lemma_ini_pair(s1, "user_data_dir"@, settings.user_data_dir);
    assert(all.take(3).drop_last() =~= all.take(2));
    let s3 = ini_state(all.take(3));
    lemma_ini_pair(s2, "deployer_path"@, settings.deployer_path);
    assert(all.take(4).drop_last() =~= all.take(3));
    let s4 = ini_state(all.take(4));
    assert(s4 == s3);
    assert(all.take(5).drop_last() =~= all.take(4));
    let s5 = ini_state(all.take(5));
    lemma_ini_section(s4, "webdav"@, "[webdav]"@);
    assert(all.take(6).drop_last() =~= all.take(5));
    let s6 = ini_state(all.take(6));
    lemma_ini_pair(s5, "url"@, settings.webdav_url);
    assert(all.take(7).drop_last() =~= all.take(6));
    let s7 = ini_state(all.take(7));
    lemma_ini_pair(s6, "username"@, settings.username);
    assert(all.take(8).drop_last() =~= all.take(7));
    let s8 = ini_state(all.take(8));
    lemma_ini_pair(s7, "password_base64"@, encoded);
    assert(all.take(9).drop_last() =~= all.take(8));
    let s9 = ini_state(all.take(9));
    assert(s9 == s8);
    assert(all.take(10).drop_last() =~= all.take(9));
    let s10 = ini_state(all.take(10));
    lemma_ini_section(s9, "sync_files"@, "[sync_files]"@);
    assert(all.take(11).drop_last() =~= all.take(10));
    let s11 = ini_state(all.take(11));
    lemma_ini_pair(s10, "file"@, entries_text(settings.sync_files));
    assert(all.take(11) =~= all);
}

/// Writing settings and reading the text gives the settings back. `encoded` is what
/// the password is stored as.
pub proof fn law_settings_round_trip(settings: SettingsView, encoded: Seq<char>)
    requires
        storable(settings),
        base64_decoded(encoded) == Some(encode_utf8(settings.password)),
        forall|i: int| 0 <= i < encoded.len() ==> base64_char(#[trigger] encoded[i]),
        encoded.len() == 0 <==> encode_utf8(settings.password).len() == 0,
    ensures
        loaded(terminated(saved_lines(settings, encoded))) == Ok::<SettingsView, Fault>(settings),
{
    let all = saved_lines(settings, encoded);
    let files = entries_text(settings.sync_files);
    law_sync_files_round_trip(settings.sync_files);
    lemma_entries_storable(settings.sync_files);
    lemma_saved_lines_plain(settings, encoded);
    lemma_lines_terminated(all);
    lemma_saved_values(settings, encoded);
    let values = ini_state(all).values;
    lemma_names_differ();
    assert(ini_value(values, "webdav"@, "password"@) == Seq::<char>::empty());
    lemma_password(settings.password);
    assert(stored_password(values) == Ok::<Seq<char>, Fault>(settings.password));
    assert(stored_files(values) =~= settings.sync_files) by {
        if settings.sync_files.len() == 0 {
            let none = Seq::<char>::empty();
            assert(ini_value(values, "sync_files"@, "union"@) == none);
            assert(ini_value(values, "sync_files"@, "newest"@) == none);
            let parts = split_on(none, ';');
            assert(parts.drop_last() =~= Seq::<Seq<char>>::empty());
            assert(trim(none) == none);
            assert(plain_files(parts, SyncFileMode::Union) =~= plain_files(
                parts.drop_last(),
                SyncFileMode::Union,
            ));
            assert(plain_files(parts, SyncFileMode::Newest) =~= plain_files(
                parts.drop_last(),
                SyncFileMode::Newest,
            ));
        }
    }
    assert(loaded(terminated(all))->Ok_0 =~= settings);
}

/// A password's bytes decode to the password; only the empty one has none.
proof fn lemma_password(password: Seq<char>)
    ensures
        valid_utf8(encode_utf8(password)),
        decode_utf8(encode_utf8(password)) == password,
        encode_utf8(password).len() == 0 ==> password.len() == 0,
{
    broadcast use {vstd::utf8::encode_utf8_valid_utf8, vstd::utf8::encode_utf8_decode_utf8};

    if encode_utf8(password).len() == 0 {
        assert(encode_utf8(password) =~= Seq::<u8>::empty());
        assert(decode_utf8(Seq::<u8>::empty()) == Seq::<char>::empty());
    }
}

/// A line gives the value for a name if it is the name, an equals sign and the value. The
/// case of the name and white space around it and the value make no difference, and the
/// value may hold anything, equals signs, too.
pub proof fn law_line_gives_a_value(state: IniState, name: Seq<char>, value: Seq<char>)
    requires
        name.len() > 0,
        !white(name[0]),
        name[0] != '[' && name[0] != ';' && name[0] != '#',
        !name.contains('='),
    ensures
        ini_step(state, name + seq!['='] + value) == (IniState {
            section: state.section,
            values: state.values.insert((state.section, lowered(trim(name))), trim(value)),
        }),
{
    reveal_strlit("=");
    assert("="@ =~= seq!['=']);
    let whole = name + seq!['='] + value;
    let (a, b) = law_trim_takes_the_white_space(value);
    let (front, back) = (value.take(a), value.skip(b));
    assert forall|i: int| 0 <= i < back.len() implies white(#[trigger] back[i]) by {
        assert(back[i] == value[b + i]);
    }
    let short = value.take(b);
    let line = name + seq!['='] + short;
    assert(whole =~= Seq::<char>::empty() + line + back);
    law_white_space_around_is_trimmed(Seq::empty(), line, back);
    if short.len() > 0 && white(short.last()) {
        assert(a == b) by {
            if a < b {
                assert(trim(value).last() == value[b - 1]);
                assert(short.last() == value[b - 1]);
            }
        }
        let head = name + seq!['='];
        assert(line =~= Seq::<char>::empty() + head + short);
        assert forall|i: int| 0 <= i < short.len() implies white(#[trigger] short[i]) by {
            assert(short[i] == value[i]);
        }
        law_white_space_around_is_trimmed(Seq::empty(), head, short);
        assert(head[0] == name[0]);
        lemma_trimmed(head);
        assert(head =~= name + seq!['='] + Seq::<char>::empty());
        law_first_part(name, '=', Seq::empty());
        assert(trim(Seq::<char>::empty()) =~= Seq::<char>::empty());
        assert(trim(value) =~= Seq::<char>::empty());
    } else {
        assert(line[0] == name[0]);
        assert(line.last() == if short.len() > 0 { short.last() } else { '=' });
        lemma_trimmed(line);
        law_first_part(name, '=', short);
        assert(value =~= Seq::<char>::empty() + short + back);
        law_white_space_around_is_trimmed(Seq::empty(), short, back);
    }
}

/// White space around a line makes no difference.
pub proof fn law_lines_may_be_indented(
    state: IniState,
    before: Seq<char>,
    line: Seq<char>,
    after: Seq<char>,
)
    requires
        forall|i: int| 0 <= i < before.len() ==> white(#[trigger] before[i]),
        forall|i: int| 0 <= i < after.len() ==> white(#[trigger] after[i]),
    ensures
        ini_step(state, before + line + after) == ini_step(state, line),
{
    law_white_space_around_is_trimmed(before, line, after);
}

/// A comment, a blank line and a line without an equals sign say nothing.
pub proof fn law_other_lines_say_nothing(state: IniState, line: Seq<char>)
    requires
        trim(line).len() == 0 || trim(line)[0] == ';' || trim(line)[0] == '#' || (!trim(
            line,
        ).contains('=') && trim(line)[0] != '['),
    ensures
        ini_step(state, line) == state,
{
    reveal_strlit("=");
    assert("="@ =~= seq!['=']);
    if trim(line).len() > 0 && !trim(line).contains('=') {
        law_first_part(trim(line), '=', Seq::empty());
    }
}

/// A name in brackets begins a section; its case and white space around it make no
/// difference.
pub proof fn law_brackets_begin_a_section(state: IniState, name: Seq<char>)
    ensures
        ini_step(state, seq!['['] + name + seq![']']) == (IniState {
            section: lowered(trim(name)),
            values: state.values,
        }),
{
    let line = seq!['['] + name + seq![']'];
    lemma_trimmed(line);
    assert(line.subrange(1, line.len() - 1) =~= name);
}

/// The lines of an INI text say what they say one after another: a later value for the
/// same name replaces an earlier one.
pub proof fn law_lines_are_read_in_order(all: Seq<Seq<char>>, line: Seq<char>)
    ensures
        ini_state(all.push(line)) == ini_step(ini_state(all), line),
        ini_state(Seq::empty()).values == Map::<(Seq<char>, Seq<char>), Seq<char>>::empty(),
{
    assert(all.push(line).drop_last() =~= all);
}

/// Names in ASCII are the same if they differ in case alone.
pub proof fn law_case_of_names_is_ignored(a: Seq<char>, b: Seq<char>)
    requires
        is_ascii_chars(a),
        is_ascii_chars(b),
    ensures
        lowered(a) == lowered(b) <==> same_letters(a, b),
{
    law_case_is_ignored(a, b);
}

/// What stands in an INI text for a name of a section; nothing if there is no such name.
pub open spec fn given(text: Seq<char>, section: Seq<char>, name: Seq<char>) -> Seq<char> {
    let values = ini_state(lines(text)).values;
    if values.dom().contains((section, name)) {
        values[(section, name)]
    } else {
        Seq::empty()
    }
}

/// Each setting is what its name stands for: the folders are taken from the section `rime`
/// or, where they are not given there, from the section `weasel`; the password from
/// `password` unless `password_base64` is given.
pub proof fn law_settings_are_what_is_given(text: Seq<char>)
    ensures
        loaded(text) matches Ok(settings) ==> {
            &&& settings.webdav_url == given(text, "webdav"@, "url"@)
            &&& settings.username == given(text, "webdav"@, "username"@)
            &&& given(text, "rime"@, "user_data_dir"@).len() > 0 ==> settings.user_data_dir
                == given(text, "rime"@, "user_data_dir"@)
            &&& given(text, "rime"@, "user_data_dir"@).len() == 0 ==> settings.user_data_dir
                == given(text, "weasel"@, "user_data_dir"@)
            &&& given(text, "rime"@, "deployer_path"@).len() > 0 ==> settings.deployer_path
                == given(text, "rime"@, "deployer_path"@)
            &&& given(text, "rime"@, "deployer_path"@).len() == 0 ==> settings.deployer_path
                == given(text, "weasel"@, "deployer_path"@)
            &&& given(text, "webdav"@, "password_base64"@).len() == 0 ==> settings.password
                == given(text, "webdav"@, "password"@)
        },
        given(text, "webdav"@, "password_base64"@).len() == 0 ==> loaded(text) is Ok,
        given(text, "webdav"@, "password_base64"@).len() > 0 && base64_decoded(
            given(text, "webdav"@, "password_base64"@),
        ) is None ==> loaded(text) == Err::<SettingsView, Fault>(Fault::PasswordBase64),
        forall|password: Seq<char>|
            given(text, "webdav"@, "password_base64"@).len() > 0 && base64_decoded(
                given(text, "webdav"@, "password_base64"@),
            ) == Some(#[trigger] encode_utf8(password)) ==> (loaded(text) matches Ok(settings)
                && settings.password == password),
{
    assert forall|password: Seq<char>|
        given(text, "webdav"@, "password_base64"@).len() > 0 && base64_decoded(
            given(text, "webdav"@, "password_base64"@),
        ) == Some(#[trigger] encode_utf8(password)) implies (loaded(text) matches Ok(settings)
        && settings.password == password) by {
        lemma_password(password);
    }
}

/// The selected files are those of the list `file`; if that has none, those of the two
/// lists of before.
pub proof fn law_selected_files_are_what_is_given(text: Seq<char>)
    requires
        loaded(text) is Ok,
    ensures
        ({
            let files = (loaded(text)->Ok_0).sync_files;
            let listed = parsed_entries(split_on(given(text, "sync_files"@, "file"@), ';'));
            &&& listed.len() > 0 ==> files == listed
            &&& listed.len() == 0 ==> files == legacy_files(
                given(text, "sync_files"@, "union"@),
                given(text, "sync_files"@, "newest"@),
            )
        }),
{
}

/// An entry names a path, how its copies are brought together and whether it is written
/// back: it is, unless the last word is `N`.
pub proof fn law_entry_is_read(path: Seq<char>, flag: Seq<char>)
    requires
        path.len() > 0,
    ensures
        !has_text("/"@ + flag, "/union/"@) ==> parsed_entry(path + "/union/"@ + flag) == Some(
            (SyncFileView {
                path,
                mode: SyncFileMode::Union,
                writeback: !same_letters(flag, "N"@),
            }),
        ),
        !has_text("/"@ + flag, "/newest/"@) && !has_text(
            path + "/newest/"@ + flag,
            "/union/"@,
        ) ==> parsed_entry(path + "/newest/"@ + flag) == Some(
            (SyncFileView {
                path,
                mode: SyncFileMode::Newest,
                writeback: !same_letters(flag, "N"@),
            }),
        ),
{
    law_case_is_ignored(flag, "N"@);
    reveal_strlit("/");
    reveal_strlit("/union/");
    reveal_strlit("/newest/");
    if !has_text("/"@ + flag, "/union/"@) {
        lemma_last_word(path, "/union/"@, flag);
    }
    let whole = path + "/newest/"@ + flag;
    if !has_text("/"@ + flag, "/newest/"@) && !has_text(whole, "/union/"@) {
        lemma_last_word(path, "/newest/"@, flag);
        assert forall|j: int| 0 <= j < whole.len() + 1 implies !has_at(whole, j, "/union/"@) by {}
        lemma_last_at_none(whole, "/union/"@, whole.len() as int + 1);
    }
}

/// A pattern that starts and ends with a slash and holds none between stands last where it
/// was put.
proof fn lemma_last_word(path: Seq<char>, pat: Seq<char>, flag: Seq<char>)
    requires
        pat.len() > 2,
        pat[0] == '/',
        pat.last() == '/',
        forall|i: int| 0 < i < pat.len() - 1 ==> #[trigger] pat[i] != '/',
        !has_text("/"@ + flag, pat),
    ensures
        split_last(path + pat + flag, pat) == Some((path, flag)),
{
    reveal_strlit("/");
    let whole = path + pat + flag;
    let n = path.len() as int;
    let m = pat.len() as int;
    assert(whole.subrange(n, n + m) =~= pat);
    assert forall|j: int| n < j < whole.len() + 1 implies !has_at(whole, j, pat) by {
        if has_at(whole, j, pat) {
            assert(whole.subrange(j, j + m)[0] == whole[j]);
            if j < n + m - 1 {
                assert(whole[j] == pat[j - n]);
            } else {
                assert(("/"@ + flag).subrange(j - (n + m - 1), j - (n + m - 1) + m) =~= pat);
                assert(has_at("/"@ + flag, j - (n + m - 1), pat));
            }
        }
    }
    lemma_last_at(whole, pat, whole.len() as int + 1, n);
    assert(whole.take(n) =~= path);
    assert(whole.skip(n + m) =~= flag);
}

/// A list of entries is read entry by entry: white space around an entry makes no
/// difference, and what is no entry is passed over.
pub proof fn law_entries_are_read_one_by_one(a: Seq<Seq<char>>, b: Seq<Seq<char>>, part: Seq<char>)
    ensures
        parsed_entries(a + b) == parsed_entries(a) + parsed_entries(b),
        parsed_entry(trim(part)) is None ==> parsed_entries(seq![part]) == Seq::<
            SyncFileView,
        >::empty(),
        parsed_entry(trim(part)) matches Some(file) ==> parsed_entries(seq![part]) == seq![file],
        parsed_entries(Seq::empty()) == Seq::<SyncFileView>::empty(),
    decreases b.len(),
{
    assert(seq![part].drop_last() =~= Seq::<Seq<char>>::empty());
    assert(parsed_entries(Seq::empty()) =~= Seq::<SyncFileView>::empty());
    if parsed_entry(trim(part)) is Some {
        assert(parsed_entries(seq![part]) =~= seq![parsed_entry(trim(part))->0]);
    }
    if b.len() > 0 {
        law_entries_are_read_one_by_one(a, b.drop_last(), part);
        assert((a + b).drop_last() =~= a + b.drop_last());
        assert(parsed_entries(a + b) =~= parsed_entries(a) + parsed_entries(b));
    } else {
        assert(a + b =~= a);
        assert(parsed_entries(a) + parsed_entries(b) =~= parsed_entries(a));
    }
}

/// The two lists of before: each path of the list `newest` is a file of that mode, each
/// other path of the list `union` one of the other mode, and none is written back. No other
/// file is there.
pub proof fn law_lists_of_before_are_read(union: Seq<char>, newest: Seq<char>, path: Seq<char>)
    requires
        path.len() > 0,
    ensures
        ({
            let late = split_on(newest, ';').map_values(|part: Seq<char>| trim(part));
            let early = split_on(union, ';').map_values(|part: Seq<char>| trim(part));
            let files = legacy_files(union, newest);
            &&& files.contains(
                (SyncFileView { path, mode: SyncFileMode::Newest, writeback: false }),
            ) <==> late.contains(path)
            &&& files.contains(
                (SyncFileView { path, mode: SyncFileMode::Union, writeback: false }),
            ) <==> early.contains(path) && !exists|i: int|
                0 <= i < late.len() && (#[trigger] late[i]).len() > 0 && same_letters(late[i], path)
            &&& forall|i: int|
                0 <= i < files.len() ==> !(#[trigger] files[i]).writeback && files[i].path.len() > 0
        }),
{
    let (x, y) = (split_on(newest, ';'), split_on(union, ';'));
    let late = x.map_values(|part: Seq<char>| trim(part));
    let early = y.map_values(|part: Seq<char>| trim(part));
    let after = plain_files(x, SyncFileMode::Newest);
    let first = plain_files(y, SyncFileMode::Union);
    let before = not_named(first, after);
    let files = legacy_files(union, newest);
    lemma_plain_files(x, SyncFileMode::Newest);
    lemma_plain_files(y, SyncFileMode::Union);
    lemma_not_named(first, after);
    let new = SyncFileView { path, mode: SyncFileMode::Newest, writeback: false };
    let old = SyncFileView { path, mode: SyncFileMode::Union, writeback: false };
    assert forall|file: SyncFileView| #[trigger] files.contains(file) <==> before.contains(file)
        || after.contains(file) by {
        lemma_contains_either(before, after, file);
    }
    assert forall|i: int| 0 <= i < files.len() implies !(#[trigger] files[i]).writeback
        && files[i].path.len() > 0 by {
        assert(files.contains(files[i]));
        if before.contains(files[i]) {
            assert(first.contains(files[i]));
            let j = choose|j: int| 0 <= j < first.len() && first[j] == files[i];
            assert(first[j].path.len() > 0);
        } else {
            let j = choose|j: int| 0 <= j < after.len() && after[j] == files[i];
            assert(after[j].path.len() > 0);
        }
    }
    if before.contains(new) {
        assert(first.contains(new));
    }
    if after.contains(old) {
        let j = choose|j: int| 0 <= j < after.len() && after[j] == old;
        assert(after[j].mode == SyncFileMode::Newest);
    }
    assert(names_path(after, path) <==> exists|i: int|
        0 <= i < late.len() && (#[trigger] late[i]).len() > 0 && same_letters(late[i], path)) by {
        if names_path(after, path) {
            let k = choose|k: int|
                0 <= k < after.len() && ascii_lower((#[trigger] after[k]).path) == ascii_lower(path);
            law_case_is_ignored(after[k].path, path);
            assert(after.contains(after[k]));
            assert(late.contains(after[k].path));
            let i = choose|i: int| 0 <= i < late.len() && late[i] == after[k].path;
            assert(same_letters(late[i], path));
        }
        if exists|i: int|
            0 <= i < late.len() && (#[trigger] late[i]).len() > 0 && same_letters(late[i], path) {
            let i = choose|i: int|
                0 <= i < late.len() && (#[trigger] late[i]).len() > 0 && same_letters(late[i], path);
            law_case_is_ignored(late[i], path);
            let file = SyncFileView { path: late[i], mode: SyncFileMode::Newest, writeback: false };
            assert(late.contains(late[i]));
            assert(after.contains(file));
            let k = choose|k: int| 0 <= k < after.len() && after[k] == file;
            assert(ascii_lower(after[k].path) == ascii_lower(path));
        }
    }
}

proof fn lemma_contains_either(a: Seq<SyncFileView>, b: Seq<SyncFileView>, file: SyncFileView)
    ensures
        (a + b).contains(file) <==> a.contains(file) || b.contains(file),
{
    if a.contains(file) {
        let i = choose|i: int| 0 <= i < a.len() && a[i] == file;
        assert((a + b)[i] == file);
    }
    if b.contains(file) {
        let i = choose|i: int| 0 <= i < b.len() && b[i] == file;
        assert((a + b)[a.len() + i] == file);
    }
}

proof fn lemma_plain_files(parts: Seq<Seq<char>>, mode: SyncFileMode)
    ensures
        ({
            let files = plain_files(parts, mode);
            let paths = parts.map_values(|part: Seq<char>| trim(part));
            &&& forall|i: int|
                0 <= i < files.len() ==> (#[trigger] files[i]).mode == mode && !files[i].writeback
                    && files[i].path.len() > 0
            &&& forall|file: SyncFileView| #[trigger]
                files.contains(file) ==> paths.contains(file.path)
            &&& forall|path: Seq<char>| #[trigger]
                paths.contains(path) && path.len() > 0 ==> files.contains(
                    (SyncFileView { path, mode, writeback: false }),
                )
        }),
    decreases parts.len(),
{
    let files = plain_files(parts, mode);
    let paths = parts.map_values(|part: Seq<char>| trim(part));
    if parts.len() > 0 {
        let init = parts.drop_last();
        lemma_plain_files(init, mode);
        let before = plain_files(init, mode);
        let earlier = init.map_values(|part: Seq<char>| trim(part));
        assert(paths =~= earlier.push(trim(parts.last())));
        assert forall|file: SyncFileView| #[trigger] files.contains(file) implies paths.contains(
            file.path,
        ) by {
            let i = choose|i: int| 0 <= i < files.len() && files[i] == file;
            if i < before.len() {
                assert(before[i] == file);
                assert(before.contains(file));
                let k = choose|k: int| 0 <= k < earlier.len() && earlier[k] == file.path;
                assert(paths[k] == file.path);
            } else {
                assert(paths[paths.len() - 1] == file.path);
            }
        }
        assert forall|path: Seq<char>| #[trigger]
            paths.contains(path) && path.len() > 0 implies files.contains(
            (SyncFileView { path, mode, writeback: false }),
        ) by {
            let file = SyncFileView { path, mode, writeback: false };
            let k = choose|k: int| 0 <= k < paths.len() && paths[k] == path;
            if k < earlier.len() {
                assert(earlier[k] == path);
                assert(earlier.contains(path));
                let i = choose|i: int| 0 <= i < before.len() && before[i] == file;
                assert(files[i] == file);
            } else {
                assert(files[files.len() - 1] == file);
            }
        }
    }
}

proof fn lemma_not_named(files: Seq<SyncFileView>, others: Seq<SyncFileView>)
    ensures
        forall|file: SyncFileView| #[trigger]
            not_named(files, others).contains(file) <==> files.contains(file) && !names_path(
                others,
                file.path,
            ),
    decreases files.len(),
{
    let all = not_named(files, others);
    if files.len() > 0 {
        let init = files.drop_last();
        lemma_not_named(init, others);
        let before = not_named(init, others);
        assert forall|file: SyncFileView| #[trigger] all.contains(file) <==> files.contains(file)
            && !names_path(others, file.path) by {
            if all.contains(file) {
                let i = choose|i: int| 0 <= i < all.len() && all[i] == file;
                if i < before.len() {
                    assert(before[i] == file);
                    assert(before.contains(file));
                    let k = choose|k: int| 0 <= k < init.len() && init[k] == file;
                    assert(files[k] == file);
                } else {
                    assert(files[files.len() - 1] == file);
                }
            }
            if files.contains(file) && !names_path(others, file.path) {
                let k = choose|k: int| 0 <= k < files.len() && files[k] == file;
                if k < init.len() {
                    assert(init[k] == file);
                    assert(init.contains(file));
                    assert(before.contains(file));
                    let i = choose|i: int| 0 <= i < before.len() && before[i] == file;
                    assert(all[i] == file);
                } else {
                    assert(all[all.len() - 1] == file);
                }
            }
        }
    }
}

} // verus!
