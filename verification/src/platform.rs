//! The RIME front end of each platform: where it is, and how it is called.
use vstd::prelude::*;

use crate::error::{Fault, SyncError};
use crate::text::{
    decimal, decimal_text, is_blank, law_digits_denote_the_number, number_of, optional_view,
    optional_views, trim, views,
};

verus! {

/// A platform.
#[derive(Clone, Copy, Debug, PartialEq, Eq, Structural)]
pub enum Platform {
    Windows,
    Macos,
    Linux,
    Other,
}

/// A front end: its program, and the arguments that make it synchronise and deploy.
pub struct RimeCommand {
    pub executable: String,
    pub sync_arg: &'static str,
    pub deploy_arg: &'static str,
}

/// The argument that makes the platform's front end synchronise.
pub open spec fn sync_argument(platform: Platform) -> Seq<char> {
    match platform {
        Platform::Windows => "/sync"@,
        _ => "--sync"@,
    }
}

/// The argument that makes the platform's front end deploy.
pub open spec fn deploy_argument(platform: Platform) -> Seq<char> {
    match platform {
        Platform::Windows => "/deploy"@,
        Platform::Macos => "--reload"@,
        _ => "--deploy"@,
    }
}

/// A folder: something below a base folder, or the base folder itself.
pub struct Folder {
    pub base: String,
    pub below: &'static str,
}

/// The first of the texts that is there and not blank.
pub open spec fn first_filled(texts: Seq<Option<Seq<char>>>) -> Option<Seq<char>>
    decreases texts.len(),
{
    if texts.len() == 0 {
        None
    } else {
        match texts[0] {
            Some(text) if trim(text).len() > 0 => Some(text),
            _ => first_filled(texts.skip(1)),
        }
    }
}

/// The text, or an empty one.
pub open spec fn or_empty(text: Option<Seq<char>>) -> Seq<char> {
    match text {
        Some(t) => t,
        None => Seq::empty(),
    }
}

/// Where the platform's front end keeps the user's data: on Windows where the registry
/// says, or else below the folder for application data; elsewhere below the home folder.
pub open spec fn user_folder(
    platform: Platform,
    registered: Seq<Option<Seq<char>>>,
    home: Option<Seq<char>>,
) -> (Seq<char>, Seq<char>) {
    match platform {
        Platform::Windows => match first_filled(registered) {
            Some(dir) => (dir, ""@),
            None => (or_empty(home), "Rime"@),
        },
        Platform::Macos => (or_empty(home), "Library/Rime"@),
        Platform::Linux => (or_empty(home), ".local/share/fcitx5/rime"@),
        Platform::Other => (Seq::empty(), ""@),
    }
}

fn find_filled(texts: &Vec<Option<String>>) -> (res: Option<String>)
    ensures
        optional_view(res) == first_filled(optional_views(texts@)),
{
    let ghost all = optional_views(texts@);
    let mut i: usize = 0;
    assert(all.skip(0) =~= all);
    while i < texts.len()
        invariant
            i <= texts@.len(),
            all == optional_views(texts@),
            first_filled(all) == first_filled(all.skip(i as int)),
        decreases texts@.len() - i,
    {
        assert(all.skip(i as int)[0] == optional_view(texts@[i as int]));
        assert(all.skip(i as int).skip(1) =~= all.skip(i + 1));
        match &texts[i] {
            Some(text) => {
                if !is_blank(text.as_str()) {
                    return Some(text.clone());
                }
            },
            None => {},
        }
        i = i + 1;
    }
    None
}

fn or_no_text(text: Option<String>) -> (res: String)
    ensures
        res@ == or_empty(optional_view(text)),
{
    match text {
        Some(t) => t,
        None => {
            let none = String::new();
            assert(none@ =~= Seq::<char>::empty());
            none
        },
    }
}

/// Where the platform's front end keeps the user's data. `registered` holds what the
/// registry says, in the order in which it is asked; `home` is the home folder, or on
/// Windows the folder for application data.
pub fn default_user_dir(
    platform: Platform,
    registered: &Vec<Option<String>>,
    home: Option<String>,
) -> (res: Folder)
    ensures
        (res.base@, res.below@) == user_folder(
            platform,
            optional_views(registered@),
            optional_view(home),
        ),
{
    match platform {
        Platform::Windows => match find_filled(registered) {
            Some(base) => Folder { base, below: "" },
            None => Folder { base: or_no_text(home), below: "Rime" },
        },
        Platform::Macos => Folder { base: or_no_text(home), below: "Library/Rime" },
        Platform::Linux => Folder { base: or_no_text(home), below: ".local/share/fcitx5/rime" },
        Platform::Other => Folder { base: or_no_text(None), below: "" },
    }
}

/// What a list of lists of texts says.
pub open spec fn group_views(groups: Seq<Vec<String>>) -> Seq<Seq<Seq<char>>> {
    groups.map_values(|group: Vec<String>| views(group@))
}

/// The lists one after another.
pub open spec fn chained(groups: Seq<Seq<Seq<char>>>) -> Seq<Seq<char>>
    decreases groups.len(),
{
    if groups.len() == 0 {
        Seq::empty()
    } else {
        chained(groups.drop_last()) + groups.last()
    }
}

/// The default place of Squirrel.
pub open spec fn squirrel_path() -> Seq<char> {
    "/Library/Input Methods/Squirrel.app/Contents/MacOS/Squirrel"@
}

/// Where the front end is looked for, in this order: on Windows where the settings say,
/// beside this program and where Weasel was installed; elsewhere only where the
/// settings say, for which macOS has a default.
pub open spec fn candidate_paths(
    platform: Platform,
    configured: Seq<char>,
    beside: Seq<char>,
    installed: Seq<Seq<Seq<char>>>,
) -> Seq<Seq<char>> {
    let blank = trim(configured).len() == 0;
    match platform {
        Platform::Windows => if blank {
            seq![beside] + chained(installed)
        } else {
            seq![configured, beside] + chained(installed)
        },
        Platform::Macos => if blank {
            seq![squirrel_path()]
        } else {
            seq![configured]
        },
        Platform::Linux => seq![configured],
        Platform::Other => Seq::empty(),
    }
}

fn add_all(list: &mut Vec<String>, more: &Vec<String>)
    ensures
        views(final(list)@) == views(old(list)@) + views(more@),
{
    let ghost before = views(list@);
    let mut i: usize = 0;
    assert(before + views(more@).take(0) =~= before);
    while i < more.len()
        invariant
            i <= more@.len(),
            views(list@) == before + views(more@).take(i as int),
        decreases more@.len() - i,
    {
        let ghost now = list@;
        let text = more[i].clone();
        let ghost shown = text@;
        list.push(text);
        assert(views(list@) =~= views(now).push(shown));
        assert(views(more@).take(i + 1) =~= views(more@).take(i as int).push(shown));
        assert(before + views(more@).take(i as int).push(shown) =~= (before + views(more@).take(
            i as int,
        )).push(shown));
        i = i + 1;
    }
    assert(views(more@).take(i as int) =~= views(more@));
}

/// Where the front end is looked for.
pub fn candidates(
    platform: Platform,
    configured: &str,
    beside: &str,
    installed: &Vec<Vec<String>>,
) -> (res: Vec<String>)
    ensures
        views(res@) == candidate_paths(platform, configured@, beside@, group_views(installed@)),
{
    let mut list: Vec<String> = Vec::new();
    assert(views(list@) =~= Seq::<Seq<char>>::empty());
    match platform {
        Platform::Windows => {
            if !is_blank(configured) {
                list.push(configured.to_owned());
            }
            list.push(beside.to_owned());
            let ghost start = views(list@);
            let ghost groups = group_views(installed@);
            assert(start =~= (if trim(configured@).len() == 0 {
                seq![beside@]
            } else {
                seq![configured@, beside@]
            }));
            let mut i: usize = 0;
            assert(groups.take(0) =~= Seq::<Seq<Seq<char>>>::empty());
            assert(start + chained(groups.take(0)) =~= start);
            while i < installed.len()
                invariant
                    i <= installed@.len(),
                    groups == group_views(installed@),
                    views(list@) == start + chained(groups.take(i as int)),
                decreases installed@.len() - i,
            {
                add_all(&mut list, &installed[i]);
                assert(groups.take(i + 1).drop_last() =~= groups.take(i as int));
                assert(groups.take(i + 1).last() == views(installed@[i as int]@));
                assert(start + (chained(groups.take(i as int)) + groups[i as int]) =~= start
                    + chained(groups.take(i as int)) + groups[i as int]);
                i = i + 1;
            }
            assert(groups.take(i as int) =~= groups);
        },
        Platform::Macos => {
            if is_blank(configured) {
                list.push("/Library/Input Methods/Squirrel.app/Contents/MacOS/Squirrel".to_owned());
            } else {
                list.push(configured.to_owned());
            }
            assert(views(list@) =~= seq![list@[0]@]);
        },
        Platform::Linux => {
            list.push(configured.to_owned());
            assert(views(list@) =~= seq![configured@]);
        },
        Platform::Other => {},
    }
    list
}

/// The first of the paths at which there is a file.
pub open spec fn first_present(paths: Seq<Seq<char>>, present: Seq<bool>) -> Option<Seq<char>>
    decreases paths.len(),
{
    if paths.len() == 0 || present.len() == 0 {
        None
    } else if present[0] {
        Some(paths[0])
    } else {
        first_present(paths.skip(1), present.skip(1))
    }
}

/// Why no front end was found.
pub open spec fn missing_fault(platform: Platform, paths: Seq<Seq<char>>) -> Fault {
    match platform {
        Platform::Windows => Fault::WeaselMissing,
        Platform::Macos => Fault::SquirrelMissing(paths[0]),
        Platform::Linux => Fault::DeployerMissing,
        Platform::Other => Fault::Platform,
    }
}

/// Finds the front end. `present` says, for each path of [`candidates`], whether there
/// is a file.
pub fn find_rime(
    platform: Platform,
    configured: &str,
    beside: &str,
    installed: &Vec<Vec<String>>,
    present: &Vec<bool>,
) -> (res: Result<RimeCommand, SyncError>)
    ensures
        ({
            let paths = candidate_paths(
                platform,
                configured@,
                beside@,
                group_views(installed@),
            );
            match res {
                Ok(command) => {
                    &&& first_present(paths, present@) == Some(command.executable@)
                    &&& command.sync_arg@ == sync_argument(platform)
                    &&& command.deploy_arg@ == deploy_argument(platform)
                },
                Err(e) => {
                    &&& first_present(paths, present@) is None
                    &&& e@ == missing_fault(platform, paths)
                },
            }
        }),
{
    let paths = candidates(platform, configured, beside, installed);
    let ghost all = views(paths@);
    let mut i: usize = 0;
    assert(all.skip(0) =~= all);
    assert(present@.skip(0) =~= present@);
    while i < paths.len() && i < present.len()
        invariant
            i <= paths@.len(),
            i <= present@.len(),
            all == views(paths@),
            all == candidate_paths(platform, configured@, beside@, group_views(installed@)),
            first_present(all, present@) == first_present(
                all.skip(i as int),
                present@.skip(i as int),
            ),
        decreases paths@.len() - i,
    {
        assert(all.skip(i as int)[0] == paths@[i as int]@);
        assert(present@.skip(i as int)[0] == present@[i as int]);
        assert(all.skip(i as int).skip(1) =~= all.skip(i + 1));
        assert(present@.skip(i as int).skip(1) =~= present@.skip(i + 1));
        if present[i] {
            let executable = paths[i].clone();
            let (sync_arg, deploy_arg) = match platform {
                Platform::Windows => ("/sync", "/deploy"),
                Platform::Macos => ("--sync", "--reload"),
                Platform::Linux => ("--sync", "--deploy"),
                Platform::Other => ("--sync", "--deploy"),
            };
            return Ok(RimeCommand { executable, sync_arg, deploy_arg });
        }
        i = i + 1;
    }
    match platform {
        Platform::Windows => Err(SyncError::WeaselMissing),
        Platform::Macos => {
            assert(all[0] == paths@[0]@);
            Err(SyncError::SquirrelMissing(paths[0].clone()))
        },
        Platform::Linux => Err(SyncError::DeployerMissing),
        Platform::Other => Err(SyncError::Platform),
    }
}

/// How a program ended.
pub struct Exit {
    pub success: bool,
    pub code: Option<i32>,
}

/// An integer in decimal notation.
pub open spec fn signed(n: int) -> Seq<char> {
    if n < 0 {
        "-"@ + decimal((-n) as nat)
    } else {
        decimal(n as nat)
    }
}

/// An exit code as a message shows it.
pub open spec fn code_text(code: Option<i32>) -> Seq<char> {
    match code {
        Some(n) => "Some("@ + signed(n as int) + ")"@,
        None => "None"@,
    }
}

fn show_code(code: Option<i32>) -> (res: String)
    ensures
        res@ == code_text(code),
{
    match code {
        Some(n) => {
            let number = if n < 0 {
                let mut number = "-".to_owned();
                number.append(decimal_text((-(n as i64)) as u64).as_str());
                number
            } else {
                decimal_text(n as u64)
            };
            let mut text = "Some(".to_owned();
            text.append(number.as_str());
            text.append(")");
            text
        },
        None => "None".to_owned(),
    }
}

/// What is done about a program that was started.
pub enum Watch {
    /// It runs: look again later.
    Wait,
    /// It has done its work.
    Done,
    /// It has to be stopped.
    Kill(SyncError),
    /// It has failed.
    Failed(SyncError),
}

/// Decides what is done about a program that was started: a stop comes first, then how
/// it ended.
pub fn run(stopped: bool, exit: Option<Exit>) -> (res: Watch)
    ensures
        stopped ==> (res matches Watch::Kill(e) && e@ == Fault::Stopped),
        !stopped ==> match exit {
            None => res is Wait,
            Some(exit) => if exit.success {
                res is Done
            } else {
                res matches Watch::Failed(e) && e@ == Fault::RimeExit(code_text(exit.code))
            },
        },
{
    if stopped {
        return Watch::Kill(SyncError::Stopped);
    }
    match exit {
        None => Watch::Wait,
        Some(exit) => if exit.success {
            Watch::Done
        } else {
            Watch::Failed(SyncError::RimeExit(show_code(exit.code)))
        },
    }
}

/// Where a font with Chinese characters is looked for, in this order.
pub open spec fn font_files(platform: Platform) -> Seq<Seq<char>> {
    match platform {
        Platform::Windows => seq![
            "C:\\Windows\\Fonts\\msyh.ttc"@,
            "C:\\Windows\\Fonts\\simhei.ttf"@,
        ],
        Platform::Macos => seq![
            "/System/Library/Fonts/Hiragino Sans GB.ttc"@,
            "/System/Library/Fonts/STHeiti Light.ttc"@,
            "/System/Library/Fonts/STHeiti Medium.ttc"@,
            "/System/Library/Fonts/PingFang.ttc"@,
        ],
        _ => seq!["/usr/share/fonts/opentype/noto/NotoSansCJK-Regular.ttc"@],
    }
}

/// Where a font with Chinese characters is looked for.
pub fn set_fonts(platform: Platform) -> (res: Vec<String>)
    ensures
        views(res@) == font_files(platform),
{
    let mut list: Vec<String> = Vec::new();
    match platform {
        Platform::Windows => {
            list.push("C:\\Windows\\Fonts\\msyh.ttc".to_owned());
            list.push("C:\\Windows\\Fonts\\simhei.ttf".to_owned());
        },
        Platform::Macos => {
            list.push("/System/Library/Fonts/Hiragino Sans GB.ttc".to_owned());
            list.push("/System/Library/Fonts/STHeiti Light.ttc".to_owned());
            list.push("/System/Library/Fonts/STHeiti Medium.ttc".to_owned());
            list.push("/System/Library/Fonts/PingFang.ttc".to_owned());
        },
        _ => {
            list.push("/usr/share/fonts/opentype/noto/NotoSansCJK-Regular.ttc".to_owned());
        },
    }
    assert(views(list@) =~= font_files(platform));
    list
}

/// The first text that is there and not blank is taken, and none if there is no such text.
pub proof fn law_first_filled_text_is_taken(texts: Seq<Option<Seq<char>>>, i: int)
    requires
        0 <= i <= texts.len(),
        forall|j: int|
            0 <= j < i ==> (#[trigger] texts[j] matches Some(text) ==> trim(text).len() == 0),
    ensures
        i == texts.len() ==> first_filled(texts) is None,
        i < texts.len() && texts[i] is Some && trim(texts[i]->0).len() > 0 ==> first_filled(texts)
            == texts[i],
    decreases i,
{
    if i > 0 {
        let rest = texts.skip(1);
        assert(texts[0] matches Some(text) ==> trim(text).len() == 0);
        assert forall|j: int| 0 <= j < i - 1 implies (#[trigger] rest[j] matches Some(text) ==> trim(
            text,
        ).len() == 0) by {
            assert(rest[j] == texts[j + 1]);
        }
        law_first_filled_text_is_taken(rest, i - 1);
        if i < texts.len() {
            assert(rest[i - 1] == texts[i]);
        }
    }
}

/// The first path at which there is a file is taken, and none if there is no such path.
pub proof fn law_first_present_path_is_taken(paths: Seq<Seq<char>>, present: Seq<bool>, i: int)
    requires
        present.len() == paths.len(),
        0 <= i <= paths.len(),
        forall|j: int| 0 <= j < i ==> !#[trigger] present[j],
    ensures
        i == paths.len() ==> first_present(paths, present) is None,
        i < paths.len() && present[i] ==> first_present(paths, present) == Some(paths[i]),
    decreases i,
{
    if i > 0 {
        let (p, q) = (paths.skip(1), present.skip(1));
        assert(!present[0]);
        assert forall|j: int| 0 <= j < i - 1 implies !#[trigger] q[j] by {
            assert(q[j] == present[j + 1]);
        }
        law_first_present_path_is_taken(p, q, i - 1);
        if i < paths.len() {
            assert(p[i - 1] == paths[i]);
            assert(q[i - 1] == present[i]);
        }
    }
}

/// What the user has set is looked for first, unless it is blank. On Windows the program's
/// own folder and every installed version follow, in their order; elsewhere nothing does.
pub proof fn law_configured_program_comes_first(
    configured: Seq<char>,
    beside: Seq<char>,
    installed: Seq<Seq<Seq<char>>>,
)
    ensures
        ({
            let paths = candidate_paths(Platform::Windows, configured, beside, installed);
            &&& trim(configured).len() > 0 ==> paths.len() > 1 && paths[0] == configured && paths[1]
                == beside && paths.skip(2) == installed.flatten()
            &&& trim(configured).len() == 0 ==> paths.len() > 0 && paths[0] == beside && paths.skip(
                1,
            ) == installed.flatten()
        }),
        trim(configured).len() > 0 ==> candidate_paths(
            Platform::Macos,
            configured,
            beside,
            installed,
        ) == seq![configured],
        trim(configured).len() == 0 ==> candidate_paths(
            Platform::Macos,
            configured,
            beside,
            installed,
        ) == seq!["/Library/Input Methods/Squirrel.app/Contents/MacOS/Squirrel"@],
        candidate_paths(Platform::Linux, configured, beside, installed) == seq![configured],
        candidate_paths(Platform::Other, configured, beside, installed).len() == 0,
{
    lemma_chained(installed);
    let paths = candidate_paths(Platform::Windows, configured, beside, installed);
    if trim(configured).len() > 0 {
        assert(paths.skip(2) =~= chained(installed));
    } else {
        assert(paths.skip(1) =~= chained(installed));
    }
}

proof fn lemma_chained(groups: Seq<Seq<Seq<char>>>)
    ensures
        chained(groups) == groups.flatten(),
    decreases groups.len(),
{
    groups.lemma_flatten_and_flatten_alt_are_equivalent();
    if groups.len() > 0 {
        let init = groups.drop_last();
        lemma_chained(init);
        init.lemma_flatten_and_flatten_alt_are_equivalent();
        assert(chained(groups) =~= groups.flatten_alt());
    } else {
        assert(chained(groups) =~= groups.flatten_alt());
    }
}

/// The user's data are where the registry says on Windows, or else in the folder for
/// application data; elsewhere at a fixed place in the home folder.
pub proof fn law_user_data_are_found(registered: Seq<Option<Seq<char>>>, home: Seq<char>)
    ensures
        first_filled(registered) matches Some(dir) ==> user_folder(
            Platform::Windows,
            registered,
            Some(home),
        ) == (dir, ""@),
        first_filled(registered) is None ==> user_folder(Platform::Windows, registered, Some(home))
            == (home, "Rime"@),
        user_folder(Platform::Macos, registered, Some(home)) == (home, "Library/Rime"@),
        user_folder(Platform::Linux, registered, Some(home)) == (home, ".local/share/fcitx5/rime"@),
{
}

/// An exit code is told with a sign and digits that denote it.
pub proof fn law_exit_code_is_told(n: i32)
    ensures
        code_text(None) == "None"@,
        exists|digits: Seq<char>|
            number_of(digits) == (if n < 0 { -n } else { n as int }) && #[trigger] code_text(Some(n))
                == "Some("@ + (if n < 0 {
                "-"@
            } else {
                ""@
            }) + digits + ")"@,
{
    reveal_strlit("");
    let size = (if n < 0 { -n } else { n as int }) as nat;
    law_digits_denote_the_number(size);
    let digits = decimal(size);
    assert(number_of(digits) == size);
    assert(code_text(Some(n)) =~= "Some("@ + (if n < 0 {
        "-"@
    } else {
        ""@
    }) + digits + ")"@);
}

/// The commands of each platform, and what is told where its program is not there,
/// wherever it was looked for.
pub proof fn law_platforms_have_their_commands(paths: Seq<Seq<char>>)
    ensures
        sync_argument(Platform::Windows) == "/sync"@,
        sync_argument(Platform::Macos) == "--sync"@,
        sync_argument(Platform::Linux) == "--sync"@,
        deploy_argument(Platform::Windows) == "/deploy"@,
        deploy_argument(Platform::Macos) == "--reload"@,
        deploy_argument(Platform::Linux) == "--deploy"@,
        missing_fault(Platform::Windows, paths) is WeaselMissing,
        missing_fault(Platform::Macos, paths) == Fault::SquirrelMissing(paths[0]),
        missing_fault(Platform::Linux, paths) is DeployerMissing,
        missing_fault(Platform::Other, paths) is Platform,
{
}

} // verus!
