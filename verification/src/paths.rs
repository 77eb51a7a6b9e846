//! Relative paths: their parts, and which of them stay inside a folder.
use vstd::prelude::*;

use crate::error::{outcome, Fault, SyncError};
use crate::text::{
    has_char, is_blank, join, law_trim_takes_the_white_space, lemma_replaced_none,
    lemma_split_join, lemma_split_lacks, lemma_split_nonempty, replace_char, replaced, split_on,
    trim, views, white,
};

verus! {

/// One part of a path.
#[derive(Debug, PartialEq, Eq)]
pub enum PathPart {
    /// A drive or a server, on Windows.
    Prefix,
    /// The root folder.
    RootDir,
    /// A leading `.`.
    CurDir,
    /// `..`.
    ParentDir,
    /// The name of a file or a folder.
    Normal(String),
}

/// What a [`PathPart`] says.
pub enum Part {
    Prefix,
    RootDir,
    CurDir,
    ParentDir,
    Normal(Seq<char>),
}

impl View for PathPart {
    type V = Part;

    open spec fn view(&self) -> Part {
        match self {
            PathPart::Prefix => Part::Prefix,
            PathPart::RootDir => Part::RootDir,
            PathPart::CurDir => Part::CurDir,
            PathPart::ParentDir => Part::ParentDir,
            PathPart::Normal(name) => Part::Normal(name@),
        }
    }
}

/// What a list of parts says.
pub open spec fn part_views(parts: Seq<PathPart>) -> Seq<Part> {
    parts.map_values(|part: PathPart| part@)
}

/// A relative path that means the same on every platform: it does not start with a
/// slash or a drive, and holds no backslash.
pub open spec fn portable(text: Seq<char>) -> bool {
    &&& !text.contains('\\')
    &&& text.len() > 0 ==> text[0] != '/'
    &&& text.len() > 1 ==> text[1] != ':'
}

/// The parts that the pieces between slashes stand for; empty pieces and `.` stand
/// for none.
pub open spec fn piece_parts(pieces: Seq<Seq<char>>) -> Seq<Part>
    decreases pieces.len(),
{
    if pieces.len() == 0 {
        Seq::empty()
    } else {
        let before = piece_parts(pieces.drop_last());
        let piece = pieces.last();
        if piece.len() == 0 || piece == seq!['.'] {
            before
        } else if piece == seq!['.', '.'] {
            before.push(Part::ParentDir)
        } else {
            before.push(Part::Normal(piece))
        }
    }
}

/// The parts of a path by the pieces between its slashes. A `.` counts only in front.
pub open spec fn relative_parts(text: Seq<char>) -> Seq<Part> {
    let pieces = split_on(text, '/');
    if pieces[0] == seq!['.'] {
        seq![Part::CurDir] + piece_parts(pieces)
    } else {
        piece_parts(pieces)
    }
}

/// Every part is a name.
pub open spec fn only_names(parts: Seq<Part>) -> bool {
    forall|i: int| 0 <= i < parts.len() ==> #[trigger] parts[i] is Normal
}

/// A name that can only mean something directly inside a folder.
pub open spec fn plain_part(name: Seq<char>) -> bool {
    &&& name.len() > 0
    &&& name != seq!['.']
    &&& name != seq!['.', '.']
    &&& !name.contains('/')
}

/// Every name leads a single step down.
pub open spec fn all_plain(list: Seq<Seq<char>>) -> bool {
    forall|i: int| 0 <= i < list.len() ==> plain_part(#[trigger] list[i])
}

/// A piece between slashes is `..`.
pub open spec fn steps_up(text: Seq<char>) -> bool {
    split_on(text, '/').contains(seq!['.', '.'])
}

/// A path with slashes for backslashes.
pub open spec fn slashed(path: Seq<char>) -> Seq<char> {
    replaced(path, '\\', seq!['/'])
}

/// A path that starts with a slash or a backslash or, in its second place, has a colon.
pub open spec fn rooted(text: Seq<char>) -> bool {
    ||| text.len() > 0 && (text[0] == '/' || text[0] == '\\')
    ||| text.len() > 1 && text[1] == ':'
}

/// Some platform reads a path as these parts. A path that starts with a slash starts with
/// a root or a server. Any other is read by the pieces between its slashes or, where a
/// backslash separates as well, by the pieces between either; but it may also start with
/// a root or a drive, if it starts with a backslash or has a colon in its second place.
pub open spec fn read_as(text: Seq<char>, parts: Seq<Part>) -> bool {
    ||| !(text.len() > 0 && text[0] == '/') && parts == relative_parts(text)
    ||| !(text.len() > 0 && text[0] == '/') && parts == relative_parts(slashed(text))
    ||| rooted(text) && parts.len() > 0 && !(parts[0] is Normal)
}

/// `Path::components`: the parts of a path. Whether a backslash separates, and whether a
/// letter and a colon are a drive, depends on the platform; stated is what the parts can
/// be on Unix and on Windows.
#[verifier::external_body]
fn path_parts(text: &str) -> (res: Vec<PathPart>)
    ensures
        read_as(text@, part_views(res@)),
{
    std::path::Path::new(text).components().map(
        |part| match part {
            std::path::Component::Prefix(_) => PathPart::Prefix,
            std::path::Component::RootDir => PathPart::RootDir,
            std::path::Component::CurDir => PathPart::CurDir,
            std::path::Component::ParentDir => PathPart::ParentDir,
            std::path::Component::Normal(name) => PathPart::Normal(name.to_string_lossy().into_owned()),
        },
    ).collect()
}

/// `Path::is_absolute`. On Unix and on Windows an absolute path starts with a root or with
/// a drive; of a path that does so the answer depends on the platform.
#[verifier::external_body]
fn path_is_absolute(text: &str) -> (res: bool)
    ensures
        res ==> rooted(text@),
{
    std::path::Path::new(text).is_absolute()
}

/// The names of the parts.
pub open spec fn names(parts: Seq<Part>) -> Seq<Seq<char>> {
    parts.map_values(|part: Part| part->Normal_0)
}

/// The folder and file names that lead from a folder to something inside it, if the
/// parts do so.
pub open spec fn inside(parts: Seq<Part>) -> Option<Seq<Seq<char>>> {
    if only_names(parts) {
        Some(names(parts))
    } else {
        None
    }
}

/// What an optional list of texts holds.
pub open spec fn optional_list(list: Option<Vec<String>>) -> Option<Seq<Seq<char>>> {
    match list {
        Some(texts) => Some(views(texts@)),
        None => None,
    }
}

/// The names of the parts, if every part is a name.
pub fn part_names(parts: &Vec<PathPart>) -> (res: Option<Vec<String>>)
    ensures
        optional_list(res) == inside(part_views(parts@)),
{
    let ghost all = part_views(parts@);
    let mut found: Vec<String> = Vec::new();
    let mut i: usize = 0;
    while i < parts.len()
        invariant
            i <= parts@.len(),
            all == part_views(parts@),
            views(found@) == names(all).take(i as int),
            forall|j: int| 0 <= j < i ==> #[trigger] all[j] is Normal,
        decreases parts@.len() - i,
    {
        assert(all[i as int] == parts@[i as int]@);
        match &parts[i] {
            PathPart::Normal(name) => {
                let ghost before = found@;
                found.push(name.clone());
                assert(views(found@) =~= views(before).push(name@));
                assert(names(all).take(i + 1) =~= names(all).take(i as int).push(name@));
            },
            _ => {
                return None;
            },
        }
        i = i + 1;
    }
    assert(names(all).take(i as int) =~= names(all));
    Some(found)
}

/// By some platform's reading of `relative`, `found` holds the names that lead from a
/// folder to it, if it stays inside the folder.
pub open spec fn below(relative: Seq<char>, found: Option<Seq<Seq<char>>>) -> bool {
    exists|parts: Seq<Part>| #[trigger] read_as(relative, parts) && found == inside(parts)
}

/// The names that a function that leads into a folder has returned, unless it refused.
pub open spec fn accepted(res: Result<Vec<String>, SyncError>) -> Option<Seq<Seq<char>>> {
    match res {
        Ok(list) => Some(views(list@)),
        Err(_) => None,
    }
}

/// A piece without a backslash is still a piece when backslashes separate as well.
proof fn lemma_slashed_pieces(text: Seq<char>)
    ensures
        ({
            let (all, more) = (split_on(text, '/'), split_on(slashed(text), '/'));
            &&& forall|i: int|
                0 <= i < all.len() - 1 && !(#[trigger] all[i]).contains('\\')
                    ==> more.drop_last().contains(all[i])
            &&& !all.last().contains('\\') ==> more.last() == all.last()
        }),
    decreases text.len(),
{
    if text.len() > 0 {
        let init = text.drop_last();
        let c = text.last();
        lemma_slashed_pieces(init);
        lemma_split_nonempty(init, '/');
        lemma_split_nonempty(slashed(init), '/');
        let (all, more) = (split_on(init, '/'), split_on(slashed(init), '/'));
        let (next, rest) = (split_on(text, '/'), split_on(slashed(text), '/'));
        let shown = if c == '\\' {
            '/'
        } else {
            c
        };
        assert(slashed(text) =~= slashed(init).push(shown));
        assert(slashed(text).drop_last() =~= slashed(init));
        if shown == '/' {
            assert(rest.drop_last() =~= more);
        } else {
            assert(rest.drop_last() =~= more.drop_last());
        }
        assert forall|i: int| 0 <= i < next.len() - 1 && !(#[trigger] next[i]).contains(
            '\\',
        ) implies rest.drop_last().contains(next[i]) by {
            assert(next[i] == all[i]);
            if i < all.len() - 1 {
                let x = choose|x: int|
                    0 <= x < more.drop_last().len() && more.drop_last()[x] == all[i];
                assert(rest.drop_last()[x] == next[i]);
            } else {
                assert(c == '/');
                assert(rest.drop_last()[more.len() - 1] == next[i]);
            }
        }
        if c == '\\' {
            assert(next.last()[next.last().len() - 1] == '\\');
            assert(next.last().contains('\\'));
        } else if c != '/' && !next.last().contains('\\') {
            assert(next.last() == all.last().push(c));
            assert forall|x: int| 0 <= x < all.last().len() implies all.last()[x] != '\\' by {
                assert(next.last()[x] == all.last()[x]);
                assert(next.last().contains(next.last()[x]));
            }
        }
    }
}

/// Pieces of which one is `..` are not read as names alone.
proof fn lemma_steps_up(pieces: Seq<Seq<char>>, i: int)
    requires
        0 <= i < pieces.len(),
        pieces[i] == seq!['.', '.'],
    ensures
        !only_names(piece_parts(pieces)),
    decreases pieces.len(),
{
    let parts = piece_parts(pieces);
    if i < pieces.len() - 1 {
        let init = pieces.drop_last();
        lemma_steps_up(init, i);
        let x = choose|x: int|
            0 <= x < piece_parts(init).len() && !(#[trigger] piece_parts(init)[x] is Normal);
        assert(parts[x] == piece_parts(init)[x]);
    } else {
        assert(parts[parts.len() - 1] is ParentDir);
    }
}

/// A path with `..` between slashes is not read as names alone.
proof fn lemma_steps_are_no_names(text: Seq<char>, parts: Seq<Part>)
    requires
        steps_up(text),
        read_as(text, parts),
    ensures
        !only_names(parts),
{
    let up = seq!['.', '.'];
    let (all, more) = (split_on(text, '/'), split_on(slashed(text), '/'));
    let i = choose|i: int| 0 <= i < all.len() && all[i] == up;
    lemma_slashed_pieces(text);
    lemma_split_nonempty(slashed(text), '/');
    assert(!up.contains('\\'));
    assert(more.contains(up)) by {
        if i < all.len() - 1 {
            let x = choose|x: int| 0 <= x < more.drop_last().len() && more.drop_last()[x] == up;
            assert(more[x] == up);
        } else {
            assert(more[more.len() - 1] == up);
        }
    }
    let j = choose|j: int| 0 <= j < more.len() && more[j] == up;
    lemma_steps_up(all, i);
    lemma_steps_up(more, j);
    lemma_names_behind(all);
    lemma_names_behind(more);
}

/// A `.` in front is no name.
proof fn lemma_names_behind(pieces: Seq<Seq<char>>)
    requires
        !only_names(piece_parts(pieces)),
    ensures
        !only_names(seq![Part::CurDir] + piece_parts(pieces)),
{
    let parts = seq![Part::CurDir] + piece_parts(pieces);
    assert(parts[0] is CurDir);
}

/// What holds of the names below a folder, however the path is read.
proof fn lemma_below(relative: Seq<char>, found: Option<Seq<Seq<char>>>)
    requires
        below(relative, found),
    ensures
        portable(relative) ==> found == inside(relative_parts(relative)),
        relative.len() > 0 && relative[0] == '/' ==> found is None,
        steps_up(relative) ==> found is None,
        found matches Some(list) ==> all_plain(list),
{
    let parts = choose|parts: Seq<Part>| #[trigger]
        read_as(relative, parts) && found == inside(parts);
    if portable(relative) {
        lemma_replaced_none(relative, '\\', seq!['/']);
    }
    if steps_up(relative) {
        lemma_steps_are_no_names(relative, parts);
    }
    if only_names(parts) {
        let list = names(parts);
        assert(parts.len() > 0 ==> parts[0] is Normal);
        assert forall|i: int| 0 <= i < list.len() implies plain_part(#[trigger] list[i]) by {
            if parts == relative_parts(relative) {
                law_accepted_path_stays_inside(relative, i);
            } else {
                law_accepted_path_stays_inside(slashed(relative), i);
            }
        }
    }
}

/// The names that lead from a folder to `relative`, if it stays inside the folder: no
/// part is a root, a drive, `.` in front or `..`.
pub fn names_below(relative: &str) -> (res: Option<Vec<String>>)
    ensures
        below(relative@, optional_list(res)),
        portable(relative@) ==> optional_list(res) == inside(relative_parts(relative@)),
        relative@.len() > 0 && relative@[0] == '/' ==> res is None,
        steps_up(relative@) ==> res is None,
        res matches Some(list) ==> all_plain(views(list@)),
{
    let parts = path_parts(relative);
    let res = part_names(&parts);
    proof {
        assert(read_as(relative@, part_views(parts@)));
        lemma_below(relative@, optional_list(res));
    }
    res
}

/// The path of a selected file, with slashes for backslashes, or why it is refused:
/// the path may not be blank, absolute or hold a semicolon, and leads into the
/// folder by names alone.
pub open spec fn sync_file_path(value: Seq<char>, absolute: bool, parts: Seq<Part>) -> Result<
    Seq<char>,
    Fault,
> {
    if trim(value).len() == 0 || value.contains(';') || absolute {
        Err(Fault::SyncFilePath(value))
    } else if parts.len() == 0 {
        Err(Fault::SyncFileEmpty)
    } else if !only_names(parts) {
        Err(Fault::SyncFileDots(value))
    } else {
        Ok(slashed(value))
    }
}

/// Decides on the path of a selected file, of which it is known whether it is absolute
/// and which parts it has.
pub fn check_sync_file_path(value: &str, absolute: bool, parts: &Vec<PathPart>) -> (res: Result<
    String,
    SyncError,
>)
    ensures
        outcome(res) == sync_file_path(value@, absolute, part_views(parts@)),
{
    proof {
        reveal_strlit("/");
        assert("/"@ =~= seq!['/']);
    }
    if is_blank(value) || has_char(value, ';') || absolute {
        return Err(SyncError::SyncFilePath(value.to_owned()));
    }
    if parts.len() == 0 {
        return Err(SyncError::SyncFileEmpty);
    }
    match part_names(parts) {
        Some(_) => Ok(replace_char(value, '\\', "/")),
        None => Err(SyncError::SyncFileDots(value.to_owned())),
    }
}

/// Some platform finds a path absolute or not, and reads it as these parts.
pub open spec fn found_as(path: Seq<char>, absolute: bool, parts: Seq<Part>) -> bool {
    (absolute ==> rooted(path)) && read_as(path, parts)
}

/// By some platform's reading of a selected file's path, `res` is the path, with slashes
/// for backslashes, or why it is refused.
pub open spec fn validated(value: Seq<char>, res: Result<Seq<char>, Fault>) -> bool {
    exists|absolute: bool, parts: Seq<Part>| #[trigger]
        found_as(slashed(value), absolute, parts) && res == sync_file_path(value, absolute, parts)
}

/// Decides on the path of a selected file. Of a path that starts with a drive, or with
/// a slash, what is stated holds on every platform: it is refused if it starts with a
/// slash or holds a `..` between slashes.
pub fn validate_sync_file_path(value: &str) -> (res: Result<String, SyncError>)
    ensures
        ({
            let path = slashed(value@);
            &&& validated(value@, outcome(res))
            &&& portable(path) ==> outcome(res) == sync_file_path(
                value@,
                false,
                relative_parts(path),
            )
            &&& path.len() > 0 && path[0] == '/' ==> res is Err
            &&& res matches Ok(text) ==> text@ == path && !steps_up(path)
            &&& (trim(value@).len() == 0 || value@.contains(';')) ==> outcome(res) == Err::<
                Seq<char>,
                Fault,
            >(Fault::SyncFilePath(value@))
        }),
{
    proof {
        reveal_strlit("/");
        assert("/"@ =~= seq!['/']);
    }
    let path = replace_char(value, '\\', "/");
    let absolute = path_is_absolute(path.as_str());
    let parts = path_parts(path.as_str());
    let res = check_sync_file_path(value, absolute, &parts);
    proof {
        let views = part_views(parts@);
        assert(found_as(slashed(value@), absolute, views));
        if portable(path@) {
            lemma_replaced_none(path@, '\\', seq!['/']);
        }
        if steps_up(path@) {
            lemma_steps_are_no_names(path@, views);
        }
    }
    res
}

proof fn lemma_plain_parts(pieces: Seq<Seq<char>>, i: int)
    requires
        forall|j: int| 0 <= j < pieces.len() ==> !(#[trigger] pieces[j]).contains('/'),
        0 <= i < piece_parts(pieces).len(),
        piece_parts(pieces)[i] is Normal,
    ensures
        plain_part(piece_parts(pieces)[i]->Normal_0),
    decreases pieces.len(),
{
    let init = pieces.drop_last();
    assert forall|j: int| 0 <= j < init.len() implies !(#[trigger] init[j]).contains('/') by {
        assert(init[j] == pieces[j]);
    }
    if i < piece_parts(init).len() {
        lemma_plain_parts(init, i);
    } else {
        assert(!pieces[pieces.len() - 1].contains('/'));
    }
}

/// What is accepted as a path inside a folder stays inside it: each of its names is a
/// single step down.
pub proof fn law_accepted_path_stays_inside(relative: Seq<char>, i: int)
    requires
        inside(relative_parts(relative)) is Some,
        0 <= i < inside(relative_parts(relative))->0.len(),
    ensures
        plain_part(inside(relative_parts(relative))->0[i]),
{
    let pieces = split_on(relative, '/');
    lemma_split_lacks(relative, '/', '/');
    if pieces[0] == seq!['.'] {
        assert(relative_parts(relative)[0] is CurDir);
    } else {
        assert(relative_parts(relative)[i] is Normal);
        lemma_plain_parts(pieces, i);
    }
}

proof fn lemma_parts_of_names(list: Seq<Seq<char>>)
    requires
        forall|i: int| 0 <= i < list.len() ==> plain_part(#[trigger] list[i]),
    ensures
        only_names(piece_parts(list)),
        names(piece_parts(list)) == list,
    decreases list.len(),
{
    if list.len() > 0 {
        let init = list.drop_last();
        assert forall|i: int| 0 <= i < init.len() implies plain_part(#[trigger] init[i]) by {
            assert(init[i] == list[i]);
        }
        lemma_parts_of_names(init);
        assert(plain_part(list[list.len() - 1]));
        assert(names(piece_parts(list)) =~= names(piece_parts(init)).push(list.last()));
        assert(init.push(list.last()) =~= list);
    } else {
        assert(names(piece_parts(list)) =~= list);
    }
}

/// A path of plain names is accepted, and leads through just these names.
pub proof fn law_plain_path_is_accepted(list: Seq<Seq<char>>)
    requires
        list.len() > 0,
        forall|i: int| 0 <= i < list.len() ==> plain_part(#[trigger] list[i]),
        portable(join(list, seq!['/'])),
    ensures
        inside(relative_parts(join(list, seq!['/']))) == Some(list),
{
    assert forall|i: int| 0 <= i < list.len() implies !(#[trigger] list[i]).contains('/') by {
        assert(plain_part(list[i]));
    }
    lemma_split_join(list, '/');
    lemma_parts_of_names(list);
    assert(plain_part(list[0]));
}

/// Writing a path with slashes changes its backslashes, and nothing else.
pub proof fn law_backslashes_become_slashes(path: Seq<char>)
    ensures
        slashed(path).len() == path.len(),
        forall|i: int|
            0 <= i < path.len() ==> #[trigger] slashed(path)[i] == (if path[i] == '\\' {
                '/'
            } else {
                path[i]
            }),
    decreases path.len(),
{
    if path.len() > 0 {
        law_backslashes_become_slashes(path.drop_last());
        let (all, before) = (slashed(path), slashed(path.drop_last()));
        assert forall|i: int| 0 <= i < path.len() implies #[trigger] all[i] == (if path[i] == '\\' {
            '/'
        } else {
            path[i]
        }) by {
            if i < path.len() - 1 {
                assert(all[i] == before[i]);
                assert(path.drop_last()[i] == path[i]);
            }
        }
    }
}

/// A name that stands for something in a folder: any but the empty one, `.` and `..`, and
/// without a slash.
pub open spec fn simple_name(name: Seq<char>) -> bool {
    name.len() > 0 && name != "."@ && name != ".."@ && !name.contains('/')
}

/// Every such name is a step down, and nothing else is.
pub proof fn law_names_are_steps_down(name: Seq<char>)
    ensures
        plain_part(name) <==> simple_name(name),
{
    reveal_strlit(".");
    reveal_strlit("..");
    assert("."@ =~= seq!['.']);
    assert(".."@ =~= seq!['.', '.']);
}

/// A selected path that leads into the user folder by names is accepted with slashes for
/// backslashes, whatever the names are: it holds no semicolon, is not blank, and starts
/// with neither a slash nor a drive.
pub proof fn law_selected_path_is_accepted(
    value: Seq<char>,
    list: Seq<Seq<char>>,
    res: Result<Seq<char>, Fault>,
)
    requires
        list.len() > 0,
        forall|i: int| 0 <= i < list.len() ==> simple_name(#[trigger] list[i]),
        slashed(value) == join(list, seq!['/']),
        slashed(value).len() > 1 ==> slashed(value)[1] != ':',
        !value.contains(';'),
        exists|i: int| 0 <= i < value.len() && !white(#[trigger] value[i]),
        validated(value, res),
    ensures
        res == Ok::<Seq<char>, Fault>(slashed(value)),
{
    let path = slashed(value);
    assert forall|i: int| 0 <= i < list.len() implies plain_part(#[trigger] list[i]) by {
        law_names_are_steps_down(list[i]);
    }
    assert forall|i: int| 0 <= i < list.len() implies !(#[trigger] list[i]).contains('/') by {
        assert(plain_part(list[i]));
    }
    lemma_split_join(list, '/');
    lemma_parts_of_names(list);
    assert(plain_part(list[0]));
    law_backslashes_become_slashes(value);
    assert(!path.contains('\\')) by {
        assert forall|i: int| 0 <= i < path.len() implies path[i] != '\\' by {}
    }
    lemma_replaced_none(path, '\\', seq!['/']);
    assert(path.len() > 0 ==> path[0] != '/') by {
        if path.len() > 0 && path[0] == '/' {
            lemma_starts_empty(path);
            assert(split_on(path, '/')[0].len() == 0);
        }
    }
    let (a, b) = law_trim_takes_the_white_space(value);
    let w = choose|i: int| 0 <= i < value.len() && !white(#[trigger] value[i]);
    assert(a <= w < b);
    assert(piece_parts(list).len() == list.len()) by {
        assert(names(piece_parts(list)).len() == list.len());
    }
    let (absolute, parts) = choose|absolute: bool, parts: Seq<Part>| #[trigger]
        found_as(slashed(value), absolute, parts) && res == sync_file_path(value, absolute, parts);
    assert(!rooted(path));
    assert(slashed(path) == path);
    assert(parts == relative_parts(path));
    assert(relative_parts(path) == piece_parts(list));
}

/// A text that starts with a slash has an empty first piece.
proof fn lemma_starts_empty(text: Seq<char>)
    requires
        text.len() > 0,
        text[0] == '/',
    ensures
        split_on(text, '/').len() >= 2,
        split_on(text, '/')[0].len() == 0,
    decreases text.len(),
{
    let init = text.drop_last();
    if init.len() > 0 {
        lemma_starts_empty(init);
        assert(split_on(text, '/')[0] == split_on(init, '/')[0]);
    } else {
        assert(split_on(init, '/') =~= seq![Seq::<char>::empty()]);
    }
}

/// A selected path is refused if it is blank or holds a semicolon.
pub proof fn law_blank_or_listed_path_is_refused(value: Seq<char>, res: Result<Seq<char>, Fault>)
    requires
        value.contains(';') || forall|i: int| 0 <= i < value.len() ==> white(#[trigger] value[i]),
        validated(value, res),
    ensures
        res == Err::<Seq<char>, Fault>(Fault::SyncFilePath(value)),
{
    let (a, b) = law_trim_takes_the_white_space(value);
    if !value.contains(';') && trim(value).len() > 0 {
        assert(trim(value)[0] == value[a]);
    }
}

/// A path that steps up is refused: the parts in which it is read are not all names.
pub proof fn law_steps_up_are_refused(before: Seq<Seq<char>>, after: Seq<Seq<char>>)
    requires
        forall|i: int| 0 <= i < before.len() ==> !(#[trigger] before[i]).contains('/'),
        forall|i: int| 0 <= i < after.len() ==> !(#[trigger] after[i]).contains('/'),
    ensures
        inside(relative_parts(join(before + seq![".."@] + after, seq!['/']))) is None,
{
    reveal_strlit("..");
    let list = before + seq![".."@] + after;
    let text = join(list, seq!['/']);
    assert(".."@ =~= seq!['.', '.']);
    assert forall|i: int| 0 <= i < list.len() implies !(#[trigger] list[i]).contains('/') by {
        if i < before.len() {
            assert(list[i] == before[i]);
        } else if i > before.len() {
            assert(list[i] == after[i - before.len() - 1]);
        }
    }
    lemma_split_join(list, '/');
    assert(list[before.len() as int] == seq!['.', '.']);
    lemma_steps_up(list, before.len() as int);
    if only_names(relative_parts(text)) {
        lemma_names_behind(list);
    }
}

/// A path of names is read as these names, whatever they are.
pub proof fn law_path_of_names_is_read(list: Seq<Seq<char>>)
    requires
        list.len() > 0,
        forall|i: int| 0 <= i < list.len() ==> simple_name(#[trigger] list[i]),
    ensures
        inside(relative_parts(join(list, seq!['/']))) == Some(list),
{
    assert forall|i: int| 0 <= i < list.len() implies plain_part(#[trigger] list[i])
        && !list[i].contains('/') by {
        law_names_are_steps_down(list[i]);
    }
    lemma_split_join(list, '/');
    lemma_parts_of_names(list);
    assert(plain_part(list[0]));
}

} // verus!
