//! Entries of the archive that holds a folder tree.
use vstd::prelude::*;

use crate::error::{Fault, SyncError};
use crate::paths::{
    accepted, all_plain, below, inside, law_backslashes_become_slashes, law_path_of_names_is_read,
    law_plain_path_is_accepted, law_steps_up_are_refused, names_below, plain_part, portable,
    relative_parts, simple_name, slashed, steps_up,
};
use crate::text::{
    join, lemma_replaced_append, lemma_replaced_char, lemma_replaced_none, replace_char, views,
};

verus! {

/// The file name of the archive on the server.
pub const ARCHIVE_NAME: &'static str = "webdav-sync.zip";

/// The entry name of a file: its relative path with slashes for backslashes.
pub open spec fn entry(relative: Seq<char>) -> Seq<char> {
    slashed(relative)
}

/// The name of the archive entry for the file at `relative`.
pub fn entry_name(relative: &str) -> (res: String)
    ensures
        res@ == entry(relative@),
{
    proof {
        reveal_strlit("/");
        assert("/"@ =~= seq!['/']);
    }
    replace_char(relative, '\\', "/")
}

/// The names under which the entry `relative` is unpacked, or why it is refused.
pub open spec fn local_names(relative: Seq<char>) -> Result<Seq<Seq<char>>, Fault> {
    match inside(relative_parts(relative)) {
        Some(list) => Ok(list),
        None => Err(Fault::ArchivePath(relative)),
    }
}

/// Leads from the target folder to the entry `relative`; an entry that would leave the
/// folder is refused, and every name leads a single step down. How a backslash or a
/// drive letter is read depends on the platform.
pub fn safe_local(relative: &str) -> (res: Result<Vec<String>, SyncError>)
    ensures
        below(relative@, accepted(res)),
        portable(relative@) ==> match res {
            Ok(list) => local_names(relative@) == Ok::<Seq<Seq<char>>, Fault>(views(list@)),
            Err(e) => local_names(relative@) == Err::<Seq<Seq<char>>, Fault>(e@),
        },
        relative@.len() > 0 && relative@[0] == '/' ==> res is Err,
        steps_up(relative@) ==> res is Err,
        res matches Ok(list) ==> all_plain(views(list@)),
        res matches Err(e) ==> e@ == Fault::ArchivePath(relative@),
{
    match names_below(relative) {
        Some(list) => Ok(list),
        None => Err(SyncError::ArchivePath(relative.to_owned())),
    }
}

/// Where an entry is unpacked: a folder's entry nowhere.
pub fn unpack_target(relative: &str, is_dir: bool) -> (res: Result<
    Option<Vec<String>>,
    SyncError,
>)
    ensures
        is_dir ==> res == Ok::<Option<Vec<String>>, SyncError>(None),
        !is_dir ==> !(res matches Ok(None)),
        !is_dir ==> below(
            relative@,
            match res {
                Ok(Some(list)) => Some(views(list@)),
                _ => None,
            },
        ),
        !is_dir && portable(relative@) ==> match res {
            Ok(Some(list)) => local_names(relative@) == Ok::<Seq<Seq<char>>, Fault>(views(list@)),
            Ok(None) => false,
            Err(e) => local_names(relative@) == Err::<Seq<Seq<char>>, Fault>(e@),
        },
        !is_dir && relative@.len() > 0 && relative@[0] == '/' ==> res is Err,
        !is_dir && steps_up(relative@) ==> res is Err,
        res matches Ok(Some(list)) ==> all_plain(views(list@)),
        res matches Err(e) ==> e@ == Fault::ArchivePath(relative@),
{
    if is_dir {
        return Ok(None);
    }
    match safe_local(relative) {
        Ok(list) => Ok(Some(list)),
        Err(e) => Err(e),
    }
}

/// The seconds since 1970 of the years 1980 to 2107, which an archive can write.
pub open spec fn packable_time(seconds: i64) -> bool {
    315_532_800 <= seconds < 4_354_819_200
}

/// The date and the time of an archive entry, as `zip::DateTime` writes them, for a time
/// in seconds since 1970.
pub uninterp spec fn zip_stamp(seconds: i64) -> Option<(u16, u16)>;

/// The time, in seconds since 1970, of the date and the time of an archive entry, as
/// `zip::DateTime` reads them.
pub uninterp spec fn zip_seconds(date: u16, time: u16) -> Option<i64>;

/// `zip::DateTime::try_from` the date and time of `OffsetDateTime::from_unix_timestamp`,
/// with its `datepart` and `timepart`. It has the years 1980 to 2107.
#[verifier::external_body]
fn write_stamp(seconds: i64) -> (res: Option<(u16, u16)>)
    ensures
        res == zip_stamp(seconds),
        res is Some <==> packable_time(seconds),
{
    let at = time::OffsetDateTime::from_unix_timestamp(seconds).ok()?;
    let day = time::PrimitiveDateTime::new(at.date(), at.time());
    let stamp = zip::DateTime::try_from(day).ok()?;
    Some((stamp.datepart(), stamp.timepart()))
}

/// `zip::DateTime::try_from_msdos`, and the `unix_timestamp` of the date and time that it
/// stands for. A stamp that was written for a time gives it back, but for an odd second:
/// stamps count in steps of two.
#[verifier::external_body]
fn read_stamp(date: u16, time: u16) -> (res: Option<i64>)
    ensures
        res == zip_seconds(date, time),
        forall|seconds: i64|
            packable_time(seconds) && #[trigger] zip_stamp(seconds) == Some((date, time)) ==> res
                == Some((seconds - seconds % 2) as i64),
{
    let stamp = zip::DateTime::try_from_msdos(date, time).ok()?;
    Some(time::PrimitiveDateTime::try_from(stamp).ok()?.assume_utc().unix_timestamp())
}

/// The date and the time that the entry of a file gets, by when the file was changed. A
/// file from outside the years 1980 to 2107 gets none of its own.
pub fn entry_time(seconds: i64) -> (res: Option<(u16, u16)>)
    ensures
        res == zip_stamp(seconds),
        res is Some <==> packable_time(seconds),
{
    write_stamp(seconds)
}

/// The time that an unpacked file gets, by the date and the time of its entry. A packed
/// file gets its own time back, up to an odd second.
pub fn unpacked_time(date: u16, time: u16) -> (res: Option<i64>)
    ensures
        res == zip_seconds(date, time),
        forall|seconds: i64|
            packable_time(seconds) && #[trigger] zip_stamp(seconds) == Some((date, time)) ==> res
                == Some((seconds - seconds % 2) as i64),
{
    read_stamp(date, time)
}

proof fn lemma_entry_join(list: Seq<Seq<char>>, separator: char)
    requires
        separator == '/' || separator == '\\',
        forall|i: int| 0 <= i < list.len() ==> !(#[trigger] list[i]).contains('\\'),
    ensures
        entry(join(list, seq![separator])) == join(list, seq!['/']),
    decreases list.len(),
{
    if list.len() > 0 {
        assert(!list[list.len() - 1].contains('\\'));
        lemma_replaced_none(list.last(), '\\', seq!['/']);
    }
    if list.len() > 1 {
        let init = list.drop_last();
        assert forall|i: int| 0 <= i < init.len() implies !(#[trigger] init[i]).contains('\\') by {
            assert(init[i] == list[i]);
        }
        lemma_entry_join(init, separator);
        let head = join(init, seq![separator]);
        lemma_replaced_append(head + seq![separator], list.last(), '\\', seq!['/']);
        lemma_replaced_append(head, seq![separator], '\\', seq!['/']);
        lemma_replaced_char(separator, '\\', seq!['/']);
    }
}

/// A packed file is unpacked under the names that lead to it, whichever of the two
/// separators the packing platform has.
pub proof fn law_packed_file_is_unpacked_in_place(list: Seq<Seq<char>>, separator: char)
    requires
        separator == '/' || separator == '\\',
        list.len() > 0,
        forall|i: int| 0 <= i < list.len() ==> plain_part(#[trigger] list[i]),
        portable(join(list, seq!['/'])),
        forall|i: int| 0 <= i < list.len() ==> !(#[trigger] list[i]).contains('\\'),
    ensures
        local_names(entry(join(list, seq![separator]))) == Ok::<Seq<Seq<char>>, Fault>(list),
{
    lemma_entry_join(list, separator);
    law_plain_path_is_accepted(list);
}

/// An entry is unpacked under the names of its path, whatever they are, and not at all if
/// its path steps up.
pub proof fn law_entry_is_unpacked_by_its_names(
    list: Seq<Seq<char>>,
    before: Seq<Seq<char>>,
    after: Seq<Seq<char>>,
)
    requires
        list.len() > 0,
        forall|i: int| 0 <= i < list.len() ==> simple_name(#[trigger] list[i]),
        forall|i: int| 0 <= i < before.len() ==> !(#[trigger] before[i]).contains('/'),
        forall|i: int| 0 <= i < after.len() ==> !(#[trigger] after[i]).contains('/'),
    ensures
        local_names(join(list, seq!['/'])) == Ok::<Seq<Seq<char>>, Fault>(list),
        ({
            let path = join(before + seq![".."@] + after, seq!['/']);
            local_names(path) == Err::<Seq<Seq<char>>, Fault>(Fault::ArchivePath(path))
        }),
{
    law_path_of_names_is_read(list);
    law_steps_up_are_refused(before, after);
}

/// An entry is named by its path with slashes for backslashes.
pub proof fn law_entry_has_slashes(path: Seq<char>)
    ensures
        entry(path).len() == path.len(),
        forall|i: int|
            0 <= i < path.len() ==> #[trigger] entry(path)[i] == (if path[i] == '\\' {
                '/'
            } else {
                path[i]
            }),
{
    law_backslashes_become_slashes(path);
}

} // verus!
