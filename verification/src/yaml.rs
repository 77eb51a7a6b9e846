//! Single-line values of `installation.yaml`.
//!
//! A key stands at the start of a line, after white space, and a colon follows it. The
//! value stands after the colon or, if nothing else stands on the colon's line, on the
//! next line that is not blank, if that is indented and no key of its own. Keys are found
//! with regular expressions.
use vstd::prelude::*;

use crate::error::{outcome, Fault, SyncError};
use crate::text::{
    chars_of, first_at, has_at, has_text, is_white, law_replacing_goes_by_characters,
    law_trim_end_takes_the_white_space, law_trim_takes_the_white_space, lemma_first_at_none,
    lemma_replaced_lacks, lemma_replaced_none, lemma_trim_end_tail, lemma_trimmed, optional_view,
    pair, replace_char, replaced, split_text_first, text_of, trim, trim_end, trim_text,
    trim_text_end, trimmed, triple, white,
};

verus! {

/// A character with a meaning of its own in a regular expression.
pub open spec fn meta(c: char) -> bool {
    ||| c == '\\' || c == '.' || c == '+' || c == '*' || c == '?' || c == '(' || c == ')'
    ||| c == '|' || c == '[' || c == ']' || c == '{' || c == '}' || c == '^' || c == '$'
    ||| c == '#' || c == '&' || c == '-' || c == '~'
}

/// The regular expression that matches `text` literally.
pub open spec fn escaped(text: Seq<char>) -> Seq<char>
    decreases text.len(),
{
    if text.len() == 0 {
        text
    } else if meta(text.last()) {
        escaped(text.drop_last()).push('\\').push(text.last())
    } else {
        escaped(text.drop_last()).push(text.last())
    }
}

/// `regex::escape` puts a backslash before each character that means something else
/// in a regular expression.
pub assume_specification[ regex::escape ](pattern: &str) -> (res: String)
    ensures
        res@ == escaped(pattern@),
;

/// The error of a regular expression that does not compile.
#[verifier::external_type_specification]
#[verifier::external_body]
pub struct ExRegexError(regex::Error);

/// A key that holds no white space and no colon, and is not longer than any that a
/// pattern is sure to compile for.
pub open spec fn plain_key(key: Seq<char>) -> bool {
    &&& 0 < key.len() <= 1000
    &&& forall|i: int| 0 <= i < key.len() ==> !white(#[trigger] key[i]) && key[i] != ':'
}

/// Where the white space that starts at `i` ends.
pub open spec fn skip_white(text: Seq<char>, i: int) -> int
    decreases text.len() - i,
{
    if 0 <= i < text.len() && white(text[i]) {
        skip_white(text, i + 1)
    } else {
        i
    }
}

/// White space within a line.
pub open spec fn blank(c: char) -> bool {
    white(c) && c != '\r' && c != '\n'
}

/// Where the white space within the line that starts at `i` ends.
pub open spec fn skip_blank(text: Seq<char>, i: int) -> int
    decreases text.len() - i,
{
    if 0 <= i < text.len() && blank(text[i]) {
        skip_blank(text, i + 1)
    } else {
        i
    }
}

/// The line feed, or the end of the text, that ends the line of position `i`.
pub open spec fn line_stop(text: Seq<char>, i: int) -> int
    decreases text.len() - i,
{
    if 0 <= i < text.len() && text[i] != '\n' {
        line_stop(text, i + 1)
    } else {
        i
    }
}

/// A line starts at `i`.
pub open spec fn line_start(text: Seq<char>, i: int) -> bool {
    i == 0 || (0 < i <= text.len() && text[i - 1] == '\n')
}

/// Where the text after the colon of `key` starts, if the text from `i` on is white
/// space, the key, white space and a colon.
pub open spec fn rest_at(text: Seq<char>, key: Seq<char>, i: int) -> Option<int> {
    let k = skip_white(text, i);
    let c = skip_white(text, k + key.len());
    if has_at(text, k, key) && c < text.len() && text[c] == ':' {
        Some(c + 1)
    } else {
        None
    }
}

/// Where the text after the colon of `key` starts, by the first line from `from` on
/// that has one.
pub open spec fn find_rest(text: Seq<char>, key: Seq<char>, from: int) -> Option<int>
    decreases text.len() + 1 - from,
{
    if from > text.len() {
        None
    } else if line_start(text, from) && rest_at(text, key, from) is Some {
        rest_at(text, key, from)
    } else {
        find_rest(text, key, from + 1)
    }
}

/// What stands after the colon of `key`, up to the end of the text.
pub open spec fn rest_text(text: Seq<char>, key: Seq<char>) -> Option<Seq<char>> {
    match find_rest(text, key, 0) {
        Some(r) => Some(text.skip(r)),
        None => None,
    }
}

/// `text` with `rest` in the place of what stands after the colon of `key`, where
/// there is one.
pub open spec fn rest_replaced(text: Seq<char>, key: Seq<char>, rest: Seq<char>) -> Seq<char> {
    match find_rest(text, key, 0) {
        Some(r) => text.take(r) + rest,
        None => text,
    }
}

/// Where the text in quotes that goes on at `i` ends: at a quote that is not doubled.
pub open spec fn quote_end(line: Seq<char>, i: int, quote: char) -> int
    decreases line.len() - i,
{
    if i >= line.len() {
        line.len() as int
    } else if line[i] != quote {
        quote_end(line, i + 1, quote)
    } else if i + 1 < line.len() && line[i + 1] == quote {
        quote_end(line, i + 2, quote)
    } else {
        i
    }
}

/// The line is one text in quotes, with a comment behind it or nothing.
pub open spec fn all_in_quotes(line: Seq<char>) -> bool {
    &&& line.len() > 0
    &&& line[0] == '\'' || line[0] == '"'
    &&& quote_end(line, 1, line[0]) < line.len()
    &&& ({
        let next = skip_white(line, quote_end(line, 1, line[0]) + 1);
        next >= line.len() || line[next] == '#'
    })
}

/// Where the word ends that goes on at `i`: at white space or a colon.
pub open spec fn word_end(line: Seq<char>, i: int) -> int
    decreases line.len() - i,
{
    if 0 <= i < line.len() && !white(line[i]) && line[i] != ':' {
        word_end(line, i + 1)
    } else {
        i
    }
}

/// The line starts with the letter of a drive, a colon and a slash or a backslash.
pub open spec fn starts_with_drive(line: Seq<char>) -> bool {
    &&& line.len() > 2
    &&& 'a' <= line[0] <= 'z' || 'A' <= line[0] <= 'Z'
    &&& line[1] == ':'
    &&& line[2] == '/' || line[2] == '\\'
}

/// The line starts with a word and a colon.
pub open spec fn starts_with_key(line: Seq<char>) -> bool {
    let n = word_end(line, 0);
    let c = skip_white(line, n);
    n > 0 && c < line.len() && line[c] == ':'
}

/// A colon that ends a key stands at `i`.
pub open spec fn breaks_at(line: Seq<char>, i: int) -> bool {
    line[i] == ':' && (i + 1 == line.len() || white(line[i + 1]))
}

/// The line has a key of its own.
pub open spec fn key_shaped(line: Seq<char>) -> bool {
    &&& !all_in_quotes(line)
    &&& (starts_with_key(line) && !starts_with_drive(line)) || exists|i: int|
        0 <= i < line.len() && #[trigger] breaks_at(line, i)
}

/// After the colon before `rest`, something stands on the colon's line.
pub open spec fn value_here(rest: Seq<char>) -> bool {
    skip_white(rest, 0) < line_stop(rest, 0)
}

/// The line that is not blank and comes first in `rest`, without white space on either
/// side.
pub open spec fn first_line(rest: Seq<char>) -> Seq<char> {
    let p = skip_white(rest, 0);
    trim_end(rest.subrange(p, line_stop(rest, p)))
}

/// After the colon before `rest`, nothing stands on the colon's line, and the next line
/// that is not blank holds the value: it is indented, has no key of its own, and is not
/// itself a key whose colon comes later.
pub open spec fn value_below(rest: Seq<char>) -> bool {
    let p = skip_white(rest, 0);
    let next = skip_white(rest, line_stop(rest, p));
    &&& !value_here(rest)
    &&& 0 < p < rest.len()
    &&& blank(rest[p - 1])
    &&& !key_shaped(first_line(rest))
    &&& !(next < rest.len() && rest[next] == ':')
}

/// Where the value after a colon starts.
pub open spec fn value_start(rest: Seq<char>) -> int {
    if value_here(rest) || value_below(rest) {
        skip_white(rest, 0)
    } else {
        skip_blank(rest, 0)
    }
}

/// Where the line of the value after a colon ends.
pub open spec fn value_end(rest: Seq<char>) -> int {
    if value_below(rest) {
        line_stop(rest, skip_white(rest, 0))
    } else {
        line_stop(rest, 0)
    }
}

/// The value after a colon; empty if there is none.
pub open spec fn value_of(rest: Seq<char>) -> Seq<char> {
    rest.subrange(value_start(rest), value_end(rest))
}

/// What stands between a colon and a new value: what stood between the colon and the
/// old one. Where there was no value, it is at least a blank.
pub open spec fn lead(rest: Seq<char>) -> Seq<char> {
    if value_start(rest) == 0 && !value_here(rest) {
        " "@
    } else {
        rest.take(value_start(rest))
    }
}

/// What stands after a colon, with a new value.
pub open spec fn renewed(rest: Seq<char>, value: Seq<char>) -> Seq<char> {
    lead(rest) + value + rest.skip(value_end(rest))
}

/// The value of what was found after a colon.
pub open spec fn found_value(rest: Option<Seq<char>>) -> Option<Seq<char>> {
    match rest {
        Some(rest) => Some(value_of(rest)),
        None => None,
    }
}

/// The value of `key`.
pub open spec fn value_text(text: Seq<char>, key: Seq<char>) -> Option<Seq<char>> {
    found_value(rest_text(text, key))
}

/// `text` with `value` in the place of the value of `key`, where there is one.
pub open spec fn value_replaced(text: Seq<char>, key: Seq<char>, value: Seq<char>) -> Seq<char> {
    match rest_text(text, key) {
        Some(rest) => rest_replaced(text, key, renewed(rest, value)),
        None => text,
    }
}

/// The pattern whose group is what stands after the colon of `key`.
pub open spec fn rest_pattern(key: Seq<char>) -> Seq<char> {
    "(?m)^\\s*"@ + escaped(key) + "\\s*:((?s:.*))"@
}

/// The pattern whose group is the text from the line of `key` up to its colon.
pub open spec fn line_pattern(key: Seq<char>) -> Seq<char> {
    "(?m)^(\\s*"@ + escaped(key) + "\\s*:)(?s:.*)"@
}

/// `text` with each of its dollar signs doubled, so that it refers to no group when
/// it stands in a replacement.
pub open spec fn dollars(text: Seq<char>) -> Seq<char> {
    replaced(text, '$', "$$"@)
}

/// The replacement that keeps a match's first group and puts `text` after it.
pub open spec fn after_group(text: Seq<char>) -> Seq<char> {
    "${1}"@ + dollars(text)
}

/// `Regex::new` takes the pattern.
pub uninterp spec fn regex_accepted(pattern: Seq<char>) -> bool;

/// How the error of `Regex::new` reads.
pub uninterp spec fn regex_error(pattern: Seq<char>) -> Seq<char>;

/// The first group of the first match that `Regex::captures` finds.
pub uninterp spec fn regex_group(pattern: Seq<char>, text: Seq<char>) -> Option<Seq<char>>;

/// What `Regex::replace` returns.
pub uninterp spec fn regex_replaced(
    pattern: Seq<char>,
    text: Seq<char>,
    replacement: Seq<char>,
) -> Seq<char>;

/// `Regex::captures` of the compiled pattern: the text of group 1 in the leftmost
/// match. For the pattern of a plain key the meaning of the pattern is stated: `^`
/// matches at the start of a line, `\s` is white space, `(?s:.)` is anything, and `*`
/// takes as much as it can.
#[verifier::external_body]
fn find_group(pattern: &str, text: &str) -> (res: Result<Option<String>, regex::Error>)
    ensures
        res is Ok <==> regex_accepted(pattern@),
        res matches Ok(found) ==> optional_view(found) == regex_group(pattern@, text@),
        forall|key: Seq<char>|
            plain_key(key) && pattern@ == #[trigger] rest_pattern(key) ==> res is Ok
                && optional_view(res->Ok_0) == rest_text(text@, key),
{
    let rx = regex::Regex::new(pattern)?;
    Ok(rx.captures(text).and_then(|c| c.get(1)).map(|m| m.as_str().to_owned()))
}

/// `Regex::replace` of the compiled pattern, which replaces the leftmost match. For
/// the line pattern of a plain key, and a replacement that keeps the first group and
/// doubles every dollar sign after it, the meaning of both is stated: `${1}` stands
/// for the group and `$$` for one dollar sign.
#[verifier::external_body]
fn replace_match(pattern: &str, text: &str, replacement: &str) -> (res: Result<
    String,
    regex::Error,
>)
    ensures
        res is Ok <==> regex_accepted(pattern@),
        res matches Ok(new) ==> new@ == regex_replaced(pattern@, text@, replacement@),
        forall|key: Seq<char>, rest: Seq<char>|
            plain_key(key) && pattern@ == #[trigger] line_pattern(key) && replacement@
                == #[trigger] after_group(rest) ==> res is Ok && (res->Ok_0)@ == rest_replaced(
                text@,
                key,
                rest,
            ),
{
    Ok(regex::Regex::new(pattern)?.replace(text, replacement).into_owned())
}

/// The text of the error that `Regex::new` gives for the pattern, and no text where
/// it gives none.
#[verifier::external_body]
fn pattern_error(pattern: &str) -> (res: String)
    ensures
        res@ == regex_error(pattern@),
{
    match regex::Regex::new(pattern) {
        Ok(_) => String::new(),
        Err(e) => e.to_string(),
    }
}

/// The value without a trailing comment and without quotes.
pub open spec fn unquoted(raw: Seq<char>) -> Seq<char> {
    let whole = trim(raw);
    let value = match first_at(whole, " #"@, 0) {
        Some(i) => trim(whole.take(i)),
        None => whole,
    };
    if value.len() >= 2 && value[0] == value.last() && (value[0] == '\'' || value[0] == '"') {
        value.subrange(1, value.len() - 1)
    } else {
        value
    }
}

/// The scalar that the raw value of `key` denotes.
pub open spec fn scalar(raw: Option<Seq<char>>, key: Seq<char>) -> Result<Seq<char>, Fault> {
    match raw {
        None => Err(Fault::MissingKey(key)),
        Some(text) => if unquoted(text).len() == 0 {
            Err(Fault::EmptyKey(key))
        } else {
            Ok(unquoted(text))
        },
    }
}

/// Makes a scalar of the raw value that was found for `key`.
pub fn read_scalar(raw: Option<String>, key: &str) -> (res: Result<String, SyncError>)
    ensures
        outcome(res) == scalar(optional_view(raw), key@),
{
    let raw = match raw {
        Some(text) => text,
        None => {
            return Err(SyncError::MissingKey(key.to_owned()));
        },
    };
    let whole = trim_text(raw.as_str());
    let value = match split_text_first(whole.as_str(), " #") {
        Some((before, _)) => trim_text(before.as_str()),
        None => whole,
    };
    let chars = chars_of(value.as_str());
    let n = chars.len();
    let value = if n >= 2 && chars[0] == chars[n - 1] && (chars[0] == '\'' || chars[0] == '"') {
        text_of(&chars, 1, n - 1)
    } else {
        value
    };
    if value.as_str().is_empty() {
        Err(SyncError::EmptyKey(key.to_owned()))
    } else {
        Ok(value)
    }
}

/// Where the white space that starts at `from` ends.
fn after_white(chars: &Vec<char>, from: usize) -> (res: usize)
    requires
        from <= chars@.len(),
    ensures
        from <= res <= chars@.len(),
        res == skip_white(chars@, from as int),
{
    let mut i = from;
    while i < chars.len() && is_white(chars[i])
        invariant
            from <= i <= chars@.len(),
            skip_white(chars@, from as int) == skip_white(chars@, i as int),
        decreases chars@.len() - i,
    {
        i = i + 1;
    }
    i
}

/// Where the white space within the line that starts at `from` ends.
fn after_blank(chars: &Vec<char>, from: usize) -> (res: usize)
    requires
        from <= chars@.len(),
    ensures
        from <= res <= chars@.len(),
        res == skip_blank(chars@, from as int),
{
    let mut i = from;
    while i < chars.len() && is_white(chars[i]) && chars[i] != '\r' && chars[i] != '\n'
        invariant
            from <= i <= chars@.len(),
            skip_blank(chars@, from as int) == skip_blank(chars@, i as int),
        decreases chars@.len() - i,
    {
        i = i + 1;
    }
    i
}

/// Where the line of the position `from` ends.
fn stop_of_line(chars: &Vec<char>, from: usize) -> (res: usize)
    requires
        from <= chars@.len(),
    ensures
        from <= res <= chars@.len(),
        res == line_stop(chars@, from as int),
{
    let mut i = from;
    while i < chars.len() && chars[i] != '\n'
        invariant
            from <= i <= chars@.len(),
            line_stop(chars@, from as int) == line_stop(chars@, i as int),
        decreases chars@.len() - i,
    {
        i = i + 1;
    }
    i
}

/// Tells whether a line is one text in quotes.
fn is_all_in_quotes(line: &Vec<char>) -> (res: bool)
    ensures
        res == all_in_quotes(line@),
{
    if line.len() == 0 || (line[0] != '\'' && line[0] != '"') {
        return false;
    }
    let quote = line[0];
    let mut i: usize = 1;
    while i < line.len() && (line[i] != quote || (i + 1 < line.len() && line[i + 1] == quote))
        invariant
            1 <= i <= line@.len(),
            quote_end(line@, 1, quote) == quote_end(line@, i as int, quote),
        decreases line@.len() - i,
    {
        if line[i] != quote {
            i = i + 1;
        } else {
            i = i + 2;
        }
    }
    if i >= line.len() {
        return false;
    }
    let next = after_white(line, i + 1);
    next >= line.len() || line[next] == '#'
}

/// Tells whether a line has a key of its own.
pub fn is_key_shaped(line: &str) -> (res: bool)
    ensures
        res == key_shaped(line@),
{
    let chars = chars_of(line);
    if is_all_in_quotes(&chars) {
        return false;
    }
    let n = chars.len();
    let mut word: usize = 0;
    while word < n && !is_white(chars[word]) && chars[word] != ':'
        invariant
            word <= n,
            n == chars@.len(),
            word_end(chars@, 0) == word_end(chars@, word as int),
        decreases n - word,
    {
        word = word + 1;
    }
    let colon = after_white(&chars, word);
    let drive = n > 2 && (('a' <= chars[0] && chars[0] <= 'z') || ('A' <= chars[0] && chars[0]
        <= 'Z')) && chars[1] == ':' && (chars[2] == '/' || chars[2] == '\\');
    assert(drive == starts_with_drive(line@));
    if word > 0 && colon < n && chars[colon] == ':' && !drive {
        return true;
    }
    let mut i: usize = 0;
    while i < n
        invariant
            i <= n,
            n == chars@.len(),
            chars@ == line@,
            !all_in_quotes(line@),
            forall|j: int| 0 <= j < i ==> !breaks_at(line@, j),
        decreases n - i,
    {
        if chars[i] == ':' && (i + 1 == n || is_white(chars[i + 1])) {
            assert(breaks_at(line@, i as int));
            return true;
        }
        i = i + 1;
    }
    false
}

/// Parts what stands after a colon: what comes before the value, the value, and what
/// comes after its line.
pub fn value_parts(rest: &str) -> (res: (String, String, String))
    ensures
        res.0@ == lead(rest@),
        res.1@ == value_of(rest@),
        res.2@ == rest@.skip(value_end(rest@)),
{
    let chars = chars_of(rest);
    let n = chars.len();
    let first = after_white(&chars, 0);
    let stop = stop_of_line(&chars, 0);
    let here = first < stop;
    let mut start = first;
    let mut end = stop;
    if !here {
        let mut below = false;
        if 0 < first && first < n && is_white(chars[first - 1]) && chars[first - 1] != '\r'
            && chars[first - 1] != '\n' {
            let last = stop_of_line(&chars, first);
            let next = after_white(&chars, last);
            let line = text_of(&chars, first, last);
            let whole = trim_text_end(line.as_str());
            assert(whole@ == first_line(rest@));
            if !(next < n && chars[next] == ':') && !is_key_shaped(whole.as_str()) {
                below = true;
                end = last;
            }
        }
        assert(below == value_below(rest@));
        if !below {
            start = after_blank(&chars, 0);
        }
    }
    proof {
        lemma_value_span(rest@);
        assert(start == value_start(rest@) && end == value_end(rest@));
        assert(rest@.subrange(0, start as int) =~= rest@.take(start as int));
        assert(rest@.subrange(end as int, n as int) =~= rest@.skip(end as int));
    }
    let front = if start == 0 && !here {
        " ".to_owned()
    } else {
        text_of(&chars, 0, start)
    };
    (front, text_of(&chars, start, end), text_of(&chars, end, n))
}

/// Reads the value of `key` in the text of `installation.yaml`.
pub fn yaml_scalar(text: &str, key: &str) -> (res: Result<String, SyncError>)
    ensures
        plain_key(key@) ==> outcome(res) == scalar(value_text(text@, key@), key@),
        outcome(res) == (if regex_accepted(rest_pattern(key@)) {
            scalar(found_value(regex_group(rest_pattern(key@), text@)), key@)
        } else {
            Err(Fault::KeyPattern(regex_error(rest_pattern(key@))))
        }),
{
    let literal = regex::escape(key);
    let pattern = triple("(?m)^\\s*", literal.as_str(), "\\s*:((?s:.*))");
    assert(pattern@ == rest_pattern(key@));
    match find_group(pattern.as_str(), text) {
        Ok(Some(rest)) => read_scalar(Some(value_parts(rest.as_str()).1), key),
        Ok(None) => read_scalar(None, key),
        Err(_) => Err(SyncError::KeyPattern(pattern_error(pattern.as_str()))),
    }
}

/// `value` in single quotes; a quote inside it is doubled.
pub open spec fn quoted(value: Seq<char>) -> Seq<char> {
    "'"@ + replaced(value, '\'', "''"@) + "'"@
}

/// `text` with a line for `key` after its last line.
pub open spec fn value_appended(text: Seq<char>, key: Seq<char>, value: Seq<char>) -> Seq<char> {
    trim_end(text) + "\n"@ + key + ": "@ + value + "\n"@
}

/// `text` with `value` as the value of `key`.
pub open spec fn with_value(text: Seq<char>, key: Seq<char>, value: Seq<char>) -> Seq<char> {
    if find_rest(text, key, 0) is Some {
        value_replaced(text, key, value)
    } else {
        value_appended(text, key, value)
    }
}

/// `text` with `value` in the place of the value of `key`, if there is one, by what
/// the patterns find.
pub open spec fn value_exchanged(text: Seq<char>, key: Seq<char>, value: Seq<char>) -> Result<
    Option<Seq<char>>,
    Fault,
> {
    if !regex_accepted(rest_pattern(key)) {
        Err(Fault::KeyPattern(regex_error(rest_pattern(key))))
    } else {
        match regex_group(rest_pattern(key), text) {
            None => Ok(None),
            Some(rest) => if !regex_accepted(line_pattern(key)) {
                Err(Fault::KeyPattern(regex_error(line_pattern(key))))
            } else {
                Ok(
                    Some(
                        regex_replaced(line_pattern(key), text, after_group(renewed(rest, value))),
                    ),
                )
            },
        }
    }
}

/// Puts `value` in the place of the value of `key`, if there is one.
fn exchange_value(text: &str, key: &str, value: &str) -> (res: Result<Option<String>, SyncError>)
    ensures
        plain_key(key@) ==> res is Ok && optional_view(res->Ok_0) == (if find_rest(
            text@,
            key@,
            0,
        ) is Some {
            Some(value_replaced(text@, key@, value@))
        } else {
            None
        }),
        match res {
            Ok(found) => value_exchanged(text@, key@, value@) == Ok::<Option<Seq<char>>, Fault>(
                optional_view(found),
            ),
            Err(e) => value_exchanged(text@, key@, value@) == Err::<Option<Seq<char>>, Fault>(e@),
        },
{
    let literal = regex::escape(key);
    let pattern = triple("(?m)^\\s*", literal.as_str(), "\\s*:((?s:.*))");
    assert(pattern@ == rest_pattern(key@));
    let rest = match find_group(pattern.as_str(), text) {
        Ok(Some(rest)) => rest,
        Ok(None) => {
            return Ok(None);
        },
        Err(_) => {
            return Err(SyncError::KeyPattern(pattern_error(pattern.as_str())));
        },
    };
    let line = triple("(?m)^(\\s*", literal.as_str(), "\\s*:)(?s:.*)");
    assert(line@ == line_pattern(key@));
    let (front, _, tail) = value_parts(rest.as_str());
    let whole = triple(front.as_str(), value, tail.as_str());
    let doubled = replace_char(whole.as_str(), '$', "$$");
    let replacement = pair("${1}", doubled.as_str());
    assert(replacement@ == after_group(renewed(rest@, value@)));
    match replace_match(line.as_str(), text, replacement.as_str()) {
        Ok(new) => Ok(Some(new)),
        Err(_) => Err(SyncError::KeyPattern(pattern_error(line.as_str()))),
    }
}

/// Sets the value of `key` in the text of `installation.yaml`: in its line, or in a
/// new line at the end.
pub fn set_yaml_scalar(text: &str, key: &str, value: &str) -> (res: Result<String, SyncError>)
    ensures
        plain_key(key@) ==> outcome(res) == Ok::<Seq<char>, Fault>(
            with_value(text@, key@, quoted(value@)),
        ),
        outcome(res) == (match value_exchanged(text@, key@, quoted(value@)) {
            Ok(Some(new)) => Ok(new),
            Ok(None) => Ok(value_appended(text@, key@, quoted(value@))),
            Err(fault) => Err(fault),
        }),
{
    let doubled = replace_char(value, '\'', "''");
    let quote = triple("'", doubled.as_str(), "'");
    match exchange_value(text, key, quote.as_str()) {
        Ok(Some(new)) => Ok(new),
        Ok(None) => {
            let mut new = trim_text_end(text);
            new.append("\n");
            new.append(key);
            new.append(": ");
            new.append(quote.as_str());
            new.append("\n");
            Ok(new)
        },
        Err(e) => Err(e),
    }
}

/// The key under which `installation.yaml` holds a device's name.
pub open spec fn id_key() -> Seq<char> {
    "installation_id"@
}

/// The text of the shared folder's `installation.yaml`, in which the device is
/// called `WebDAV`.
pub open spec fn webdav_installation(text: Seq<char>) -> Seq<char> {
    if find_rest(text, id_key(), 0) is Some {
        value_replaced(text, id_key(), "WebDAV"@)
    } else {
        "installation_id: WebDAV\n"@ + text
    }
}

pub proof fn lemma_id_key()
    ensures
        plain_key(id_key()),
        id_key()[0] == 'i',
        id_key().len() == 15,
{
    reveal_strlit("installation_id");
}

/// Makes the shared folder's `installation.yaml` name its device `WebDAV`.
pub fn ensure_webdav_installation(text: &str) -> (res: String)
    ensures
        res@ == webdav_installation(text@),
{
    proof {
        lemma_id_key();
    }
    match exchange_value(text, "installation_id", "WebDAV") {
        Ok(Some(new)) => new,
        _ => {
            let mut new = "installation_id: WebDAV\n".to_owned();
            new.append(text);
            new
        },
    }
}

proof fn lemma_skip_white(text: Seq<char>, i: int)
    requires
        0 <= i <= text.len(),
    ensures
        i <= skip_white(text, i) <= text.len(),
        forall|j: int| i <= j < skip_white(text, i) ==> white(#[trigger] text[j]),
        skip_white(text, i) < text.len() ==> !white(text[skip_white(text, i)]),
    decreases text.len() - i,
{
    if i < text.len() && white(text[i]) {
        lemma_skip_white(text, i + 1);
    }
}

proof fn lemma_skip_white_to(text: Seq<char>, i: int, j: int)
    requires
        0 <= i <= j <= text.len(),
        forall|n: int| i <= n < j ==> white(#[trigger] text[n]),
        j < text.len() ==> !white(text[j]),
    ensures
        skip_white(text, i) == j,
    decreases j - i,
{
    if i < j {
        lemma_skip_white_to(text, i + 1, j);
    }
}

proof fn lemma_skip_blank(text: Seq<char>, i: int)
    requires
        0 <= i <= text.len(),
    ensures
        i <= skip_blank(text, i) <= text.len(),
        forall|j: int| i <= j < skip_blank(text, i) ==> blank(#[trigger] text[j]),
        skip_blank(text, i) < text.len() ==> !blank(text[skip_blank(text, i)]),
    decreases text.len() - i,
{
    if i < text.len() && blank(text[i]) {
        lemma_skip_blank(text, i + 1);
    }
}

proof fn lemma_skip_blank_to(text: Seq<char>, i: int, j: int)
    requires
        0 <= i <= j <= text.len(),
        forall|n: int| i <= n < j ==> blank(#[trigger] text[n]),
        j < text.len() ==> !blank(text[j]),
    ensures
        skip_blank(text, i) == j,
    decreases j - i,
{
    if i < j {
        lemma_skip_blank_to(text, i + 1, j);
    }
}

proof fn lemma_line_stop(text: Seq<char>, i: int)
    requires
        0 <= i <= text.len(),
    ensures
        i <= line_stop(text, i) <= text.len(),
        forall|j: int| i <= j < line_stop(text, i) ==> #[trigger] text[j] != '\n',
        line_stop(text, i) < text.len() ==> text[line_stop(text, i)] == '\n',
    decreases text.len() - i,
{
    if i < text.len() && text[i] != '\n' {
        lemma_line_stop(text, i + 1);
    }
}

proof fn lemma_line_stop_to(text: Seq<char>, i: int, j: int)
    requires
        0 <= i <= j <= text.len(),
        forall|n: int| i <= n < j ==> #[trigger] text[n] != '\n',
        j < text.len() ==> text[j] == '\n',
    ensures
        line_stop(text, i) == j,
    decreases j - i,
{
    if i < j {
        lemma_line_stop_to(text, i + 1, j);
    }
}

/// Where the value after a colon stands.
proof fn lemma_value_span(rest: Seq<char>)
    ensures
        0 <= value_start(rest) <= value_end(rest) <= rest.len(),
        value_end(rest) < rest.len() ==> rest[value_end(rest)] == '\n',
{
    lemma_skip_white(rest, 0);
    lemma_skip_blank(rest, 0);
    lemma_line_stop(rest, 0);
    let p = skip_white(rest, 0);
    lemma_line_stop(rest, p);
    let stop = line_stop(rest, 0);
    let q = skip_blank(rest, 0);
    if q > stop {
        assert(blank(rest[stop]));
    }
}

/// Nothing but white space stands between the start of a line and `k`.
pub open spec fn line_head(text: Seq<char>, k: int) -> bool
    decreases k,
{
    k == 0 || (0 < k <= text.len() && (text[k - 1] == '\n' || (white(text[k - 1]) && line_head(
        text,
        k - 1,
    ))))
}

/// Where the colon after a key at `k` stands, if one does.
pub open spec fn colon_of(text: Seq<char>, key: Seq<char>, k: int) -> int {
    skip_white(text, k + key.len())
}

/// `key` stands at `k` as the key of its line.
pub open spec fn key_line(text: Seq<char>, key: Seq<char>, k: int) -> bool {
    &&& line_head(text, k)
    &&& has_at(text, k, key)
    &&& colon_of(text, key, k) < text.len()
    &&& text[colon_of(text, key, k)] == ':'
}

/// The characters of a key that stands at `k`.
proof fn lemma_key_chars(text: Seq<char>, key: Seq<char>, k: int)
    requires
        plain_key(key),
        has_at(text, k, key),
    ensures
        forall|j: int|
            k <= j < k + key.len() ==> #[trigger] text[j] == key[j - k] && !white(text[j])
                && text[j] != ':',
{
    assert forall|j: int| k <= j < k + key.len() implies #[trigger] text[j] == key[j - k] && !white(
        text[j],
    ) && text[j] != ':' by {
        assert(text.subrange(k, k + key.len())[j - k] == text[j]);
    }
}

/// Where the parts of a key's line stand.
proof fn lemma_key_line(text: Seq<char>, key: Seq<char>, k: int)
    requires
        plain_key(key),
        0 <= k,
        key_line(text, key, k),
    ensures
        k < k + key.len() <= colon_of(text, key, k) < text.len(),
        !white(text[k]),
        text[k] == key[0],
        text[k] != ':',
        forall|j: int|
            k + key.len() <= j < colon_of(text, key, k) ==> white(#[trigger] text[j]),
{
    lemma_skip_white(text, k + key.len());
    lemma_key_chars(text, key, k);
}

/// The colon of a key stands before the next word that starts a line.
proof fn lemma_colon_before(text: Seq<char>, key: Seq<char>, j: int, k: int)
    requires
        plain_key(key),
        0 <= j < k < text.len(),
        key_line(text, key, j),
        line_head(text, k),
        !white(text[k]),
        text[k] != ':',
    ensures
        colon_of(text, key, j) < k,
{
    lemma_key_line(text, key, j);
    lemma_key_chars(text, key, j);
    if j + key.len() > k {
        assert(!white(text[k - 1]));
        assert(white('\n'));
    }
}

/// A line that starts at `i` and holds white space up to `k` has its head at `k`.
proof fn lemma_line_head(text: Seq<char>, i: int, k: int)
    requires
        0 <= i <= k <= text.len(),
        line_start(text, i),
        forall|j: int| i <= j < k ==> white(#[trigger] text[j]),
    ensures
        line_head(text, k),
    decreases k - i,
{
    if i < k {
        lemma_line_head(text, i, k - 1);
        assert(white(text[k - 1]));
    }
}

/// A head has a line start before it, and white space between.
proof fn lemma_line_of(text: Seq<char>, k: int) -> (i: int)
    requires
        0 <= k <= text.len(),
        line_head(text, k),
    ensures
        0 <= i <= k,
        line_start(text, i),
        forall|j: int| i <= j < k ==> white(#[trigger] text[j]),
        forall|j: int| i <= j < k ==> #[trigger] text[j] != '\n',
    decreases k,
{
    if k == 0 || text[k - 1] == '\n' {
        k
    } else {
        lemma_line_of(text, k - 1)
    }
}

/// The first key line decides what is found.
proof fn lemma_find_first(text: Seq<char>, key: Seq<char>, from: int, i: int, k: int)
    requires
        plain_key(key),
        key_line(text, key, k),
        forall|j: int| 0 <= j < k ==> !key_line(text, key, j),
        0 <= from <= i <= k,
        line_start(text, i),
        forall|j: int| i <= j < k ==> white(#[trigger] text[j]),
    ensures
        find_rest(text, key, from) == Some(colon_of(text, key, k) + 1),
    decreases i - from,
{
    lemma_key_chars(text, key, k);
    assert(!white(text[k]));
    if line_start(text, from) && rest_at(text, key, from) is Some {
        let h = skip_white(text, from);
        lemma_skip_white(text, from);
        lemma_line_head(text, from, h);
        assert(key_line(text, key, h));
        assert(h == k);
    } else {
        if from == i {
            lemma_skip_white_to(text, i, k);
            assert(rest_at(text, key, i) is Some);
        }
        lemma_find_first(text, key, from + 1, i, k);
    }
}

/// The first key line is found.
proof fn lemma_find(text: Seq<char>, key: Seq<char>, k: int)
    requires
        plain_key(key),
        0 <= k,
        key_line(text, key, k),
        forall|j: int| 0 <= j < k ==> !key_line(text, key, j),
    ensures
        find_rest(text, key, 0) == Some(colon_of(text, key, k) + 1),
{
    let i = lemma_line_of(text, k);
    lemma_find_first(text, key, 0, i, k);
}

/// Where something is found, there is a first key line.
proof fn lemma_found(text: Seq<char>, key: Seq<char>) -> (k: int)
    requires
        plain_key(key),
        find_rest(text, key, 0) is Some,
    ensures
        0 <= k < text.len(),
        key_line(text, key, k),
        forall|j: int| 0 <= j < k ==> !key_line(text, key, j),
        find_rest(text, key, 0) == Some(colon_of(text, key, k) + 1),
{
    let some = lemma_found_any(text, key, 0);
    let k = lemma_least(text, key, some);
    lemma_find(text, key, k);
    k
}

proof fn lemma_found_any(text: Seq<char>, key: Seq<char>, from: int) -> (k: int)
    requires
        plain_key(key),
        0 <= from,
        find_rest(text, key, from) is Some,
    ensures
        0 <= k < text.len(),
        key_line(text, key, k),
    decreases text.len() + 1 - from,
{
    if line_start(text, from) && rest_at(text, key, from) is Some {
        lemma_skip_white(text, from);
        lemma_line_head(text, from, skip_white(text, from));
        skip_white(text, from)
    } else {
        lemma_found_any(text, key, from + 1)
    }
}

proof fn lemma_least(text: Seq<char>, key: Seq<char>, some: int) -> (k: int)
    requires
        0 <= some < text.len(),
        key_line(text, key, some),
    ensures
        0 <= k <= some,
        key_line(text, key, k),
        forall|j: int| 0 <= j < k ==> !key_line(text, key, j),
    decreases some,
{
    if exists|j: int| 0 <= j < some && key_line(text, key, j) {
        let j = choose|j: int| 0 <= j < some && key_line(text, key, j);
        lemma_least(text, key, j)
    } else {
        some
    }
}

/// A key line is found.
proof fn lemma_not_missed(text: Seq<char>, key: Seq<char>, k: int)
    requires
        plain_key(key),
        0 <= k < text.len(),
        key_line(text, key, k),
    ensures
        find_rest(text, key, 0) is Some,
{
    let least = lemma_least(text, key, k);
    lemma_find(text, key, least);
}

/// Texts that agree up to beyond a key's colon both have the key's line.
proof fn lemma_key_line_local(s: Seq<char>, t: Seq<char>, key: Seq<char>, k: int, m: int)
    requires
        plain_key(key),
        key_line(s, key, k),
        0 <= k,
        colon_of(s, key, k) < m <= s.len(),
        m <= t.len(),
        forall|j: int| 0 <= j < m ==> #[trigger] s[j] == t[j],
    ensures
        key_line(t, key, k),
        colon_of(t, key, k) == colon_of(s, key, k),
{
    let c = colon_of(s, key, k);
    lemma_key_line(s, key, k);
    lemma_line_head_local(s, t, k, m);
    assert(t.subrange(k, k + key.len()) =~= s.subrange(k, k + key.len()));
    assert(s[c] == t[c]);
    assert forall|j: int| k + key.len() <= j < c implies white(#[trigger] t[j]) by {
        assert(s[j] == t[j]);
    }
    lemma_skip_white_to(t, k + key.len(), c);
}

proof fn lemma_line_head_local(s: Seq<char>, t: Seq<char>, k: int, m: int)
    requires
        0 <= k <= m <= s.len(),
        m <= t.len(),
        forall|j: int| 0 <= j < m ==> #[trigger] s[j] == t[j],
        line_head(s, k),
    ensures
        line_head(t, k),
    decreases k,
{
    if k > 0 {
        assert(s[k - 1] == t[k - 1]);
        if s[k - 1] != '\n' {
            lemma_line_head_local(s, t, k - 1, m);
        }
    }
}

/// The line feed before a key line that follows another.
proof fn lemma_feed_between(text: Seq<char>, h: int, k: int) -> (n: int)
    requires
        0 <= h < k <= text.len(),
        !white(text[h]),
        line_head(text, k),
    ensures
        h < n < k,
        text[n] == '\n',
{
    let i = lemma_line_of(text, k);
    i - 1
}

/// A key line stays the first if everything up to its colon stays.
#[verifier::rlimit(40)]
proof fn lemma_first_stays(s: Seq<char>, t: Seq<char>, key: Seq<char>, k: int, m: int)
    requires
        plain_key(key),
        0 <= k,
        key_line(s, key, k),
        forall|j: int| 0 <= j < k ==> !key_line(s, key, j),
        colon_of(s, key, k) < m <= s.len(),
        m <= t.len(),
        forall|j: int| 0 <= j < m ==> #[trigger] s[j] == t[j],
    ensures
        key_line(t, key, k),
        colon_of(t, key, k) == colon_of(s, key, k),
        find_rest(t, key, 0) == Some(colon_of(s, key, k) + 1),
{
    lemma_key_line(s, key, k);
    lemma_key_line_local(s, t, key, k, m);
    lemma_key_line(t, key, k);
    assert forall|j: int| 0 <= j < k implies !key_line(t, key, j) by {
        if key_line(t, key, j) {
            lemma_colon_before(t, key, j, k);
            lemma_key_line_local(t, s, key, j, m);
        }
    }
    lemma_find(t, key, k);
}

/// What is put after the colon of `key` is found there.
proof fn lemma_read_replaced(text: Seq<char>, key: Seq<char>, rest: Seq<char>)
    requires
        plain_key(key),
        find_rest(text, key, 0) is Some,
    ensures
        rest_text(rest_replaced(text, key, rest), key) == Some(rest),
        forall|again: Seq<char>|
            #[trigger] rest_replaced(rest_replaced(text, key, rest), key, again)
                == rest_replaced(text, key, again),
{
    let k = lemma_found(text, key);
    let r = colon_of(text, key, k) + 1;
    lemma_key_line(text, key, k);
    let new = rest_replaced(text, key, rest);
    assert(new == text.take(r) + rest);
    assert(forall|j: int| 0 <= j < r ==> #[trigger] text[j] == new[j]);
    lemma_first_stays(text, new, key, k, r);
    assert(new.skip(r) =~= rest);
    assert(new.take(r) =~= text.take(r));
}

/// A value that is read from a line of its own as it is.
spec fn plain_value(value: Seq<char>) -> bool {
    &&& value.len() > 0
    &&& trimmed(value)
    &&& !value.contains('\n')
    &&& !key_shaped(value)
}

/// White space, a value and the rest of a text from the end of the value's line on.
spec fn parted(rest: Seq<char>, front: Seq<char>, value: Seq<char>, tail: Seq<char>) -> bool {
    &&& rest == front + value + tail
    &&& forall|i: int| 0 <= i < front.len() ==> white(#[trigger] front[i])
    &&& value.len() > 0
    &&& trimmed(value)
    &&& !value.contains('\n')
    &&& tail.len() > 0 ==> tail[0] == '\n'
}

proof fn lemma_parted(rest: Seq<char>, front: Seq<char>, value: Seq<char>, tail: Seq<char>)
    requires
        parted(rest, front, value, tail),
    ensures
        skip_white(rest, 0) == front.len(),
        line_stop(rest, front.len() as int) == front.len() + value.len(),
        first_line(rest) == value,
        rest.subrange(front.len() as int, (front.len() + value.len()) as int) == value,
        rest.take(front.len() as int) == front,
        rest.skip((front.len() + value.len()) as int) == tail,
        trim(value) == value,
{
    let p = front.len() as int;
    let e = p + value.len();
    lemma_trimmed(value);
    assert(rest[p] == value[0]);
    assert forall|i: int| 0 <= i < p implies white(#[trigger] rest[i]) by {
        assert(rest[i] == front[i]);
    }
    lemma_skip_white_to(rest, 0, p);
    assert forall|j: int| p <= j < e implies #[trigger] rest[j] != '\n' by {
        assert(rest[j] == value[j - p]);
        assert(value.contains(value[j - p]));
    }
    if tail.len() > 0 {
        assert(rest[e] == tail[0]);
    }
    lemma_line_stop_to(rest, p, e);
    assert(rest.subrange(p, e) =~= value);
    assert(trim_end(value) == value);
    assert(rest.take(p) =~= front);
    assert(rest.skip(e) =~= tail);
}

/// A value on the colon's line is read.
proof fn lemma_read_here(rest: Seq<char>, front: Seq<char>, value: Seq<char>, tail: Seq<char>)
    requires
        parted(rest, front, value, tail),
        !front.contains('\n'),
    ensures
        value_here(rest),
        value_of(rest) == value,
        lead(rest) == front,
        rest.skip(value_end(rest)) == tail,
{
    lemma_parted(rest, front, value, tail);
    let p = front.len() as int;
    let e = p + value.len();
    assert forall|j: int| 0 <= j < e implies #[trigger] rest[j] != '\n' by {
        if j < p {
            assert(rest[j] == front[j]);
            assert(front.contains(front[j]));
        } else {
            assert(rest[j] == value[j - p]);
            assert(value.contains(value[j - p]));
        }
    }
    if tail.len() > 0 {
        assert(rest[e] == tail[0]);
    }
    lemma_line_stop_to(rest, 0, e);
}

/// What is set as a value is read, and setting it again changes nothing.
#[verifier::rlimit(40)]
proof fn lemma_renewed(rest: Seq<char>, value: Seq<char>)
    requires
        plain_value(value),
    ensures
        value_of(renewed(rest, value)) == value,
        renewed(renewed(rest, value), value) == renewed(rest, value),
{
    reveal_strlit(" ");
    lemma_value_span(rest);
    lemma_skip_white(rest, 0);
    lemma_skip_blank(rest, 0);
    lemma_line_stop(rest, 0);
    let new = renewed(rest, value);
    let front = lead(rest);
    let tail = rest.skip(value_end(rest));
    let p = skip_white(rest, 0);
    assert(forall|i: int| 0 <= i < front.len() ==> white(#[trigger] front[i]));
    assert(parted(new, front, value, tail));
    if value_below(rest) {
        lemma_parted(new, front, value, tail);
        lemma_line_stop(rest, p);
        let stop = line_stop(rest, 0);
        assert(stop < p);
        assert forall|j: int| 0 <= j < stop implies #[trigger] new[j] != '\n' by {
            assert(new[j] == rest[j]);
        }
        assert(new[stop] == rest[stop]);
        lemma_line_stop_to(new, 0, stop);
        assert(new[p - 1] == rest[p - 1]);
        let (e, f) = (value_end(rest), (p + value.len()) as int);
        lemma_skip_moved(rest, e, new, f, 0);
    } else {
        assert forall|i: int| 0 <= i < front.len() implies front[i] != '\n' by {
            if front.len() != 1 || front[0] != ' ' {
                assert(front[i] == rest[i]);
            }
        }
        lemma_read_here(new, front, value, tail);
    }
    assert(value_of(new) == value);
    assert(lead(new) == front);
    assert(new.skip(value_end(new)) == tail);
}

/// White space is passed over alike in two texts that end alike.
proof fn lemma_skip_moved(s: Seq<char>, a: int, t: Seq<char>, b: int, i: int)
    requires
        0 <= a <= s.len(),
        0 <= b <= t.len(),
        s.skip(a) == t.skip(b),
        0 <= i <= s.len() - a,
    ensures
        skip_white(s, a + i) - a == skip_white(t, b + i) - b,
        a + i <= skip_white(s, a + i) <= s.len(),
        skip_white(s, a + i) < s.len() ==> s[skip_white(s, a + i)] == t[skip_white(t, b + i)],
        s.len() - a == t.len() - b,
    decreases s.len() - a - i,
{
    assert(s.skip(a).len() == s.len() - a);
    assert(t.skip(b).len() == t.len() - b);
    if i < s.len() - a {
        assert(s[a + i] == s.skip(a)[i]);
        assert(t[b + i] == t.skip(b)[i]);
        if white(s[a + i]) {
            lemma_skip_moved(s, a, t, b, i + 1);
        }
    }
}

/// A value appended under `key` is found there, after a blank.
#[verifier::rlimit(40)]
proof fn lemma_read_appended(text: Seq<char>, key: Seq<char>, value: Seq<char>)
    requires
        plain_key(key),
        find_rest(text, key, 0) is None,
    ensures
        rest_text(value_appended(text, key, value), key) == Some(" "@ + value + "\n"@),
        rest_replaced(value_appended(text, key, value), key, " "@ + value + "\n"@)
            == value_appended(text, key, value),
{
    reveal_strlit("\n");
    reveal_strlit(": ");
    reveal_strlit(" ");
    let m = trim_end(text).len() as int;
    let n = key.len() as int;
    let new = value_appended(text, key, value);
    lemma_appended(text, key, value);
    let k = m + 1;
    assert forall|j: int| 0 <= j < k implies !key_line(new, key, j) by {
        if key_line(new, key, j) {
            lemma_appended_line(text, key, value, key, j);
            lemma_not_missed(text, key, j);
        }
    }
    lemma_find(new, key, k);
    let p = k + n + 1;
    let rest = " "@ + value + "\n"@;
    assert(new.skip(p) =~= rest);
    assert(new.take(p) + rest =~= new);
}

/// Where the parts of a text with an appended line stand.
proof fn lemma_appended(text: Seq<char>, key: Seq<char>, value: Seq<char>)
    requires
        plain_key(key),
    ensures
        ({
            let m = trim_end(text).len() as int;
            let new = value_appended(text, key, value);
            &&& m <= text.len()
            &&& m < new.len()
            &&& forall|j: int| 0 <= j < m ==> #[trigger] text[j] == new[j]
            &&& new[m] == '\n'
            &&& key_line(new, key, m + 1)
            &&& colon_of(new, key, m + 1) == m + 1 + key.len()
        }),
{
    reveal_strlit("\n");
    reveal_strlit(": ");
    let m = trim_end(text).len() as int;
    let n = key.len() as int;
    let new = value_appended(text, key, value);
    lemma_trim_end_tail(text);
    assert(forall|j: int| 0 <= j < m ==> #[trigger] text[j] == new[j]);
    let k = m + 1;
    assert(new[m] == '\n');
    assert(new.subrange(k, k + n) =~= key);
    assert(new[k + n] == ':');
    lemma_skip_white_to(new, k + n, k + n);
}

/// A key line before the appended one was there.
#[verifier::rlimit(40)]
proof fn lemma_appended_line(
    text: Seq<char>,
    key: Seq<char>,
    value: Seq<char>,
    other: Seq<char>,
    j: int,
)
    requires
        plain_key(key),
        plain_key(other),
        0 <= j <= trim_end(text).len(),
        key_line(value_appended(text, key, value), other, j),
    ensures
        j < text.len(),
        key_line(text, other, j),
{
    let m = trim_end(text).len() as int;
    let new = value_appended(text, key, value);
    lemma_appended(text, key, value);
    lemma_key_line(new, other, j);
    lemma_key_line(new, key, m + 1);
    assert(white('\n'));
    assert(j != m);
    lemma_colon_before(new, other, j, m + 1);
    let c = colon_of(new, other, j);
    assert(new[c] == ':');
    assert(c < m);
    lemma_key_line_local(new, text, other, j, m);
}

/// A value that a line of `installation.yaml` carries unchanged.
pub open spec fn carried(value: Seq<char>) -> bool {
    &&& value.len() > 0
    &&& !value.contains('\'')
    &&& !value.contains('\n')
    &&& !has_text(value, " #"@)
}

/// Without quotes inside, quoting puts one quote on either side.
proof fn lemma_quoted(value: Seq<char>)
    requires
        carried(value),
    ensures
        quoted(value) == seq!['\''] + value + seq!['\''],
        trimmed(quoted(value)),
        !quoted(value).contains('\n'),
        unquoted(quoted(value)) == value,
        plain_value(quoted(value)),
{
    reveal_strlit("'");
    reveal_strlit("''");
    reveal_strlit(" #");
    lemma_replaced_none(value, '\'', "''"@);
    let q = quoted(value);
    assert(q =~= seq!['\''] + value + seq!['\'']);
    assert forall|i: int| 0 <= i < q.len() implies q[i] != '\n' by {
        if 0 < i < q.len() - 1 {
            assert(q[i] == value[i - 1]);
            assert(value.contains(value[i - 1]));
        }
    }
    lemma_trimmed(q);
    assert forall|j: int| 1 <= j < q.len() - 1 implies #[trigger] q[j] != '\'' by {
        assert(q[j] == value[j - 1]);
        assert(value.contains(value[j - 1]));
    }
    assert forall|j: int| 0 <= j implies !has_at(q, j, " #"@) by {
        if has_at(q, j, " #"@) {
            assert(q.subrange(j, j + 2)[0] == q[j]);
            assert(q.subrange(j, j + 2)[1] == q[j + 1]);
            assert(0 < j && j + 1 < q.len() - 1);
            assert(value.subrange(j - 1, j + 1) =~= " #"@);
            assert(has_at(value, j - 1, " #"@));
        }
    }
    lemma_first_at_none(q, " #"@, 0);
    assert(q.subrange(1, q.len() - 1) =~= value);
    lemma_quote_end(q, 1, '\'');
    lemma_skip_white_to(q, q.len() as int, q.len() as int);
}

/// What is set as the value of `key` is found there, and setting it again changes
/// nothing.
proof fn lemma_read_set(text: Seq<char>, key: Seq<char>, value: Seq<char>)
    requires
        plain_key(key),
        plain_value(value),
    ensures
        value_text(with_value(text, key, value), key) == Some(value),
        with_value(with_value(text, key, value), key, value) == with_value(text, key, value),
{
    if find_rest(text, key, 0) is Some {
        let rest = rest_text(text, key)->0;
        lemma_read_replaced(text, key, renewed(rest, value));
        lemma_renewed(rest, value);
    } else {
        reveal_strlit(" ");
        reveal_strlit("\n");
        lemma_read_appended(text, key, value);
        let rest = " "@ + value + "\n"@;
        assert(parted(rest, " "@, value, "\n"@));
        lemma_read_here(rest, " "@, value, "\n"@);
    }
}

/// Reading a value that was set gives the value, if a line can carry it: it is not
/// empty and holds no quote, no line feed and no blank before a number sign.
pub proof fn law_set_value_is_read_back(text: Seq<char>, key: Seq<char>, value: Seq<char>)
    requires
        plain_key(key),
        carried(value),
    ensures
        scalar(value_text(with_value(text, key, quoted(value)), key), key) == Ok::<
            Seq<char>,
            Fault,
        >(value),
{
    lemma_quoted(value);
    lemma_trimmed(quoted(value));
    lemma_read_set(text, key, quoted(value));
}

/// Setting a value again changes nothing, if a line can carry it.
pub proof fn law_setting_is_stable(text: Seq<char>, key: Seq<char>, value: Seq<char>)
    requires
        plain_key(key),
        carried(value),
    ensures
        ({
            let once = with_value(text, key, quoted(value));
            with_value(once, key, quoted(value)) == once
        }),
{
    lemma_quoted(value);
    lemma_read_set(text, key, quoted(value));
}

proof fn lemma_webdav_value(text: Seq<char>)
    ensures
        value_text(webdav_installation(text), id_key()) == Some("WebDAV"@),
        webdav_installation(webdav_installation(text)) == webdav_installation(text),
{
    lemma_id_key();
    reveal_strlit("WebDAV");
    let value = "WebDAV"@;
    let key = id_key();
    let new = webdav_installation(text);
    lemma_skip_white_to(value, 6, 6);
    assert(word_end(value, 0) == 6) by {
        reveal_with_fuel(word_end, 7);
    }
    assert forall|i: int| 0 <= i < value.len() implies !#[trigger] breaks_at(value, i) by {}
    assert(plain_value(value));
    if find_rest(text, key, 0) is Some {
        lemma_read_set(text, key, value);
    } else {
        reveal_strlit("installation_id: WebDAV\n");
        reveal_strlit("installation_id");
        reveal_strlit(" ");
        assert(new.subrange(0, 15) =~= key);
        lemma_skip_white_to(new, 15, 15);
        assert(key_line(new, key, 0));
        lemma_find(new, key, 0);
        let tail = seq!['\n'] + text;
        let rest = " "@ + value + tail;
        assert(new.skip(16) =~= rest);
        assert(parted(rest, " "@, value, tail));
        lemma_read_here(rest, " "@, value, tail);
        assert(new.take(16) + rest =~= new);
    }
}

/// Whatever the shared folder's `installation.yaml` held, its device is called
/// `WebDAV` afterwards.
pub proof fn law_shared_folder_is_called_webdav(text: Seq<char>)
    ensures
        scalar(value_text(webdav_installation(text), id_key()), id_key()) == Ok::<
            Seq<char>,
            Fault,
        >("WebDAV"@),
{
    reveal_strlit("WebDAV");
    reveal_strlit(" #");
    let value = "WebDAV"@;
    lemma_webdav_value(text);
    lemma_trimmed(value);
    assert forall|j: int| 0 <= j implies !has_at(value, j, " #"@) by {
        if has_at(value, j, " #"@) {
            assert(value.subrange(j, j + 2)[0] == value[j]);
        }
    }
    lemma_first_at_none(value, " #"@, 0);
}

/// Naming the shared folder's device again changes nothing.
pub proof fn law_webdav_installation_is_stable(text: Seq<char>)
    ensures
        webdav_installation(webdav_installation(text)) == webdav_installation(text),
{
    lemma_webdav_value(text);
}

/// From the line feed at `from` on, `t` holds what `s` holds, `d` further on.
spec fn shifted(s: Seq<char>, t: Seq<char>, from: int, d: int) -> bool {
    &&& 0 <= from < s.len()
    &&& 0 <= from + d
    &&& t.len() == s.len() + d
    &&& s[from] == '\n'
    &&& forall|x: int| from <= x < s.len() ==> #[trigger] s[x] == t[x + d]
}

proof fn lemma_shift_back(s: Seq<char>, t: Seq<char>, from: int, d: int)
    requires
        shifted(s, t, from, d),
    ensures
        shifted(t, s, from + d, -d),
{
    assert forall|x: int| from + d <= x < t.len() implies #[trigger] t[x] == s[x + -d] by {
        assert(s[x - d] == t[x - d + d]);
    }
    assert(s[from] == t[from + d]);
}

proof fn lemma_shift_skip(s: Seq<char>, t: Seq<char>, from: int, d: int, i: int)
    requires
        shifted(s, t, from, d),
        from <= i <= s.len(),
    ensures
        skip_white(t, i + d) == skip_white(s, i) + d,
    decreases s.len() - i,
{
    if i < s.len() {
        assert(s[i] == t[i + d]);
        lemma_shift_skip(s, t, from, d, i + 1);
    }
}

proof fn lemma_shift_head(s: Seq<char>, t: Seq<char>, from: int, d: int, k: int)
    requires
        shifted(s, t, from, d),
        from < k <= s.len(),
        line_head(s, k),
    ensures
        line_head(t, k + d),
    decreases k,
{
    assert(s[k - 1] == t[k - 1 + d]);
    if s[k - 1] != '\n' {
        lemma_shift_head(s, t, from, d, k - 1);
    }
}

#[verifier::rlimit(40)]
proof fn lemma_shift_key_line(
    s: Seq<char>,
    t: Seq<char>,
    from: int,
    d: int,
    key: Seq<char>,
    k: int,
)
    requires
        plain_key(key),
        shifted(s, t, from, d),
        from < k,
        key_line(s, key, k),
    ensures
        key_line(t, key, k + d),
        colon_of(t, key, k + d) == colon_of(s, key, k) + d,
{
    lemma_key_line(s, key, k);
    lemma_shift_head(s, t, from, d, k);
    assert(t.subrange(k + d, k + d + key.len()) =~= s.subrange(k, k + key.len())) by {
        assert forall|x: int| 0 <= x < key.len() implies #[trigger] t[k + d + x] == s[k + x] by {
            assert(s[k + x] == t[k + x + d]);
        }
    }
    lemma_shift_skip(s, t, from, d, k + key.len());
    let c = colon_of(s, key, k);
    assert(s[c] == t[c + d]);
}

/// Two keys that start at one place are the same.
proof fn lemma_same_key(text: Seq<char>, a: Seq<char>, b: Seq<char>, k: int)
    requires
        plain_key(a),
        plain_key(b),
        0 <= k,
        key_line(text, a, k),
        key_line(text, b, k),
    ensures
        a == b,
{
    lemma_key_line(text, a, k);
    lemma_key_line(text, b, k);
    lemma_key_chars(text, a, k);
    lemma_key_chars(text, b, k);
    if a.len() < b.len() {
        assert(!white(text[k + a.len()]) && text[k + a.len()] != ':');
    } else if b.len() < a.len() {
        assert(!white(text[k + b.len()]) && text[k + b.len()] != ':');
    }
}

/// A key that cannot be taken for the start of a text in quotes or for the letter of a
/// drive.
pub open spec fn word_key(key: Seq<char>) -> bool {
    &&& plain_key(key)
    &&& key[0] != '\'' && key[0] != '"'
    &&& key.len() == 1 ==> !('a' <= key[0] <= 'z' || 'A' <= key[0] <= 'Z')
}

/// A line that starts with a key and its colon has a key of its own.
proof fn lemma_key_front(line: Seq<char>, key: Seq<char>, c: int)
    requires
        word_key(key),
        key.len() <= c < line.len(),
        line.take(key.len() as int) == key,
        forall|j: int| key.len() <= j < c ==> white(#[trigger] line[j]),
        line[c] == ':',
    ensures
        key_shaped(line),
{
    let n = key.len() as int;
    assert forall|j: int| 0 <= j < n implies line[j] == #[trigger] key[j] by {
        assert(line.take(n)[j] == line[j]);
    }
    lemma_word_end(line, key, 0);
    lemma_skip_white_to(line, n, c);
    assert(line[0] == key[0]);
    if n > 1 {
        assert(line[1] == key[1]);
    }
}

proof fn lemma_word_end(line: Seq<char>, key: Seq<char>, i: int)
    requires
        plain_key(key),
        0 <= i <= key.len() < line.len(),
        forall|j: int| 0 <= j < key.len() ==> line[j] == #[trigger] key[j],
        white(line[key.len() as int]) || line[key.len() as int] == ':',
    ensures
        word_end(line, i) == key.len(),
    decreases key.len() - i,
{
    if i < key.len() {
        assert(line[i] == key[i]);
        lemma_word_end(line, key, i + 1);
    }
}

/// `new` is `text` with something else between the colon before `r` and the end of a line
/// at `e`; what follows is moved by `d`. Neither text has the key `other` in between.
spec fn exchanged(
    text: Seq<char>,
    new: Seq<char>,
    other: Seq<char>,
    r: int,
    e: int,
    d: int,
) -> bool {
    &&& 0 < r <= e <= text.len()
    &&& r <= e + d
    &&& new.len() == text.len() + d
    &&& e < text.len() ==> shifted(text, new, e, d)
    &&& text[r - 1] == ':'
    &&& forall|i: int| 0 <= i < r ==> #[trigger] text[i] == new[i]
    &&& forall|j: int| r <= j <= e ==> !#[trigger] key_line(text, other, j)
    &&& forall|j: int| r <= j <= e + d ==> !#[trigger] key_line(new, other, j)
}

/// A key line of a text in which what stands between `r` and `e` was replaced was a
/// key line before.
#[verifier::rlimit(40)]
proof fn lemma_line_was_there(
    text: Seq<char>,
    new: Seq<char>,
    other: Seq<char>,
    r: int,
    e: int,
    d: int,
    j: int,
)
    requires
        plain_key(other),
        exchanged(text, new, other, r, e, d),
        0 <= j,
        key_line(new, other, j),
    ensures
        j >= r ==> j - d > e && key_line(text, other, j - d),
        j < r ==> key_line(text, other, j),
{
    lemma_key_line(new, other, j);
    lemma_key_chars(new, other, j);
    assert(new[r - 1] == ':') by {
        assert(text[r - 1] == new[r - 1]);
    }
    if j > e + d {
        lemma_shift_back(text, new, e, d);
        lemma_shift_key_line(new, text, e + d, -d, other, j);
        assert(j + -d == j - d);
    } else {
        assert(j < r - 1);
        assert(colon_of(new, other, j) < r) by {
            if colon_of(new, other, j) >= r {
                if j + other.len() > r - 1 {
                    assert(new[r - 1] != ':');
                } else {
                    assert(white(new[r - 1]));
                }
            }
        }
        lemma_key_line_local(new, text, other, j, r);
    }
}

/// What follows a colon is read alike in two texts that are alike up to the colon of the
/// next key, whose line starts after the line feed at `n`.
#[verifier::rlimit(60)]
proof fn lemma_same_value(s: Seq<char>, t: Seq<char>, key: Seq<char>, n: int, x: int, m: int)
    requires
        word_key(key),
        0 <= n < x,
        x + key.len() < m <= s.len(),
        m <= t.len(),
        forall|j: int| 0 <= j < m ==> #[trigger] s[j] == t[j],
        s[n] == '\n',
        forall|j: int| n < j < x ==> white(#[trigger] s[j]),
        s.subrange(x, x + key.len()) == key,
        forall|j: int| x + key.len() <= j < m - 1 ==> white(#[trigger] s[j]),
        s[m - 1] == ':',
    ensures
        value_of(s) == value_of(t),
{
    assert(white('\n'));
    assert(s[x] == key[0]) by {
        assert(s.subrange(x, x + key.len())[0] == s[x]);
    }
    assert(!white(s[x]));
    let p = skip_white(s, 0);
    lemma_skip_white(s, 0);
    assert(p <= x);
    lemma_alike_white(s, t, 0, p, m);
    let stop = line_stop(s, 0);
    lemma_line_stop(s, 0);
    assert(stop <= n);
    lemma_alike_stop(s, t, 0, stop, m);
    let q = skip_blank(s, 0);
    lemma_skip_blank(s, 0);
    assert(q <= stop) by {
        if q > stop {
            assert(blank(s[stop]));
        }
    }
    assert forall|j: int| 0 <= j < q implies blank(#[trigger] t[j]) by {
        assert(s[j] == t[j]);
    }
    assert(s[q] == t[q]);
    lemma_skip_blank_to(t, 0, q);
    if !value_here(s) {
        assert(s[p - 1] == t[p - 1]);
        let e = line_stop(s, p);
        lemma_line_stop(s, p);
        if p < x {
            assert(p < n);
            assert(e <= n);
            lemma_same_below(s, t, p, e, x, m);
        } else if exists|j: int| x <= j < m && s[j] == '\n' {
            let j = choose|j: int| x <= j < m && s[j] == '\n';
            assert(e <= j);
            assert(e < m - 1);
            lemma_same_below(s, t, p, e, m - 1, m);
        } else {
            lemma_key_follows(s, key, x, m);
            assert(t.subrange(x, x + key.len()) =~= key);
            assert forall|j: int| x + key.len() <= j < m - 1 implies white(#[trigger] t[j]) by {
                assert(s[j] == t[j]);
            }
            assert forall|j: int| x <= j < m implies #[trigger] t[j] != '\n' by {
                assert(s[j] == t[j]);
            }
            assert(t[m - 1] == s[m - 1]);
            lemma_key_follows(t, key, x, m);
            assert(!value_below(s) && !value_below(t));
        }
    }
    if value_below(s) {
        assert(s.subrange(p, line_stop(s, p)) =~= t.subrange(p, line_stop(s, p)));
    } else {
        assert(s.subrange(value_start(s), stop) =~= t.subrange(value_start(s), stop));
    }
}

proof fn lemma_alike_white(s: Seq<char>, t: Seq<char>, i: int, p: int, m: int)
    requires
        0 <= i <= p < m <= s.len(),
        m <= t.len(),
        forall|j: int| 0 <= j < m ==> #[trigger] s[j] == t[j],
        skip_white(s, i) == p,
    ensures
        skip_white(t, i) == p,
{
    lemma_skip_white(s, i);
    assert forall|j: int| i <= j < p implies white(#[trigger] t[j]) by {
        assert(s[j] == t[j]);
    }
    assert(s[p] == t[p]);
    lemma_skip_white_to(t, i, p);
}

proof fn lemma_alike_stop(s: Seq<char>, t: Seq<char>, i: int, e: int, m: int)
    requires
        0 <= i <= e < m <= s.len(),
        m <= t.len(),
        forall|j: int| 0 <= j < m ==> #[trigger] s[j] == t[j],
        line_stop(s, i) == e,
    ensures
        line_stop(t, i) == e,
{
    lemma_line_stop(s, i);
    assert forall|j: int| i <= j < e implies #[trigger] t[j] != '\n' by {
        assert(s[j] == t[j]);
    }
    assert(s[e] == t[e]);
    lemma_line_stop_to(t, i, e);
}

/// Whether the next line holds the value is told alike in two texts that are alike up to
/// something that follows that line.
proof fn lemma_same_below(s: Seq<char>, t: Seq<char>, p: int, e: int, x: int, m: int)
    requires
        0 <= p <= e < x < m <= s.len(),
        m <= t.len(),
        forall|j: int| 0 <= j < m ==> #[trigger] s[j] == t[j],
        skip_white(s, 0) == p,
        skip_white(t, 0) == p,
        value_here(s) == value_here(t),
        line_stop(s, p) == e,
        !white(s[x]),
    ensures
        value_below(s) == value_below(t),
        line_stop(t, p) == e,
{
    lemma_alike_stop(s, t, p, e, m);
    assert(s.subrange(p, e) =~= t.subrange(p, e));
    lemma_skip_white(s, e);
    let next = skip_white(s, e);
    assert(next <= x);
    lemma_alike_white(s, t, e, next, m);
    assert(s[next] == t[next]);
    if p > 0 {
        assert(s[p - 1] == t[p - 1]);
    }
}

/// A line that starts with a key and its colon holds no value of the key before.
proof fn lemma_key_follows(s: Seq<char>, key: Seq<char>, x: int, m: int)
    requires
        word_key(key),
        0 <= x,
        x + key.len() < m <= s.len(),
        skip_white(s, 0) == x,
        s.subrange(x, x + key.len()) == key,
        forall|j: int| x + key.len() <= j < m - 1 ==> white(#[trigger] s[j]),
        forall|j: int| x <= j < m ==> #[trigger] s[j] != '\n',
        s[m - 1] == ':',
    ensures
        !value_below(s),
{
    lemma_line_stop(s, x);
    let e = line_stop(s, x);
    assert(e >= m) by {
        if e < m {
            assert(s[e] == '\n');
        }
    }
    let line = s.subrange(x, e);
    let whole = trim_end(line);
    lemma_trim_end_tail(line);
    let c = m - 1 - x;
    assert(line[c] == ':');
    assert(c < whole.len()) by {
        if c >= whole.len() {
            assert(white(line[c]));
        }
    }
    assert(forall|j: int| 0 <= j < whole.len() ==> #[trigger] whole[j] == line[j]);
    assert(whole.take(key.len() as int) =~= s.subrange(x, x + key.len()));
    assert forall|j: int| key.len() <= j < c implies white(#[trigger] whole[j]) by {
        assert(whole[j] == s[x + j]);
    }
    lemma_key_front(whole, key, c);
}

/// A key line before the changed one keeps its value.
#[verifier::rlimit(60)]
proof fn lemma_keep_before(
    text: Seq<char>,
    new: Seq<char>,
    key: Seq<char>,
    h: int,
    other: Seq<char>,
    k: int,
)
    requires
        word_key(key),
        plain_key(other),
        0 <= k < h,
        key_line(text, key, h),
        colon_of(text, key, h) < new.len(),
        forall|i: int| 0 <= i <= colon_of(text, key, h) ==> #[trigger] text[i] == new[i],
        key_line(text, other, k),
        forall|j: int| 0 <= j < k ==> !key_line(text, other, j),
    ensures
        value_text(new, other) == value_text(text, other),
{
    lemma_key_line(text, other, k);
    lemma_key_line(text, key, h);
    lemma_colon_before(text, other, k, h);
    let r = colon_of(text, key, h) + 1;
    let c = colon_of(text, other, k);
    lemma_find(text, other, k);
    lemma_first_stays(text, new, other, k, r);
    let i = lemma_line_of(text, h);
    assert(i > c) by {
        if i <= c {
            assert(white(text[c]));
        }
    }
    assert(text[i - 1] == '\n');
    let from = c + 1;
    let (s, t) = (text.skip(from), new.skip(from));
    assert forall|j: int| 0 <= j < r - from implies #[trigger] s[j] == t[j] by {
        assert(text[from + j] == new[from + j]);
    }
    assert(s.subrange(h - from, h - from + key.len()) =~= text.subrange(h, h + key.len()));
    assert forall|j: int| i - 1 - from < j < h - from implies white(#[trigger] s[j]) by {
        assert(s[j] == text[from + j]);
    }
    assert forall|j: int| h - from + key.len() <= j < r - from - 1 implies white(
        #[trigger] s[j],
    ) by {
        assert(s[j] == text[from + j]);
    }
    lemma_same_value(s, t, key, i - 1 - from, h - from, r - from);
}

/// A key line behind the changed one keeps its value.
#[verifier::rlimit(40)]
proof fn lemma_keep_after(
    text: Seq<char>,
    new: Seq<char>,
    r: int,
    e: int,
    d: int,
    other: Seq<char>,
    k: int,
)
    requires
        plain_key(other),
        exchanged(text, new, other, r, e, d),
        e < k,
        key_line(text, other, k),
        forall|j: int| 0 <= j < k ==> !key_line(text, other, j),
    ensures
        value_text(new, other) == value_text(text, other),
{
    lemma_key_line(text, other, k);
    let c = colon_of(text, other, k);
    lemma_find(text, other, k);
    lemma_shift_key_line(text, new, e, d, other, k);
    assert forall|j: int| 0 <= j < k + d implies !key_line(new, other, j) by {
        if key_line(new, other, j) {
            lemma_line_was_there(text, new, other, r, e, d, j);
        }
    }
    lemma_find(new, other, k + d);
    assert(new.skip(c + 1 + d) =~= text.skip(c + 1)) by {
        assert forall|x: int| c < x < text.len() implies #[trigger] text[x] == new[x + d] by {}
    }
}

/// Where a value stands, no other key stands.
#[verifier::rlimit(40)]
proof fn lemma_no_key_inside(text: Seq<char>, r: int, other: Seq<char>, j: int)
    requires
        word_key(other),
        0 < r <= text.len(),
        text[r - 1] == ':',
        r <= j <= r + value_end(text.skip(r)),
    ensures
        !key_line(text, other, j),
{
    let rest = text.skip(r);
    assert forall|i: int| 0 <= i < rest.len() implies #[trigger] rest[i] == text[r + i] by {}
    lemma_value_span(rest);
    let b = value_end(rest);
    let e = r + b;
    if key_line(text, other, j) {
        lemma_key_line(text, other, j);
        lemma_key_chars(text, other, j);
        assert(white('\n'));
        assert(j != e) by {
            if j == e {
                assert(rest[b] == text[e]);
            }
        }
        if value_below(rest) {
            let p = skip_white(rest, 0);
            lemma_skip_white(rest, 0);
            lemma_line_stop(rest, p);
            assert(j >= r + p) by {
                if j < r + p {
                    assert(white(rest[j - r]));
                }
            }
            if j > r + p {
                assert(!white(text[r + p])) by {
                    assert(rest[p] == text[r + p]);
                }
                let n = lemma_feed_between(text, r + p, j);
                assert(rest[n - r] == text[n]);
            } else {
                lemma_value_is_no_key(text, r, other);
            }
        } else {
            lemma_line_stop(rest, 0);
            let n = lemma_feed_between(text, r - 1, j);
            assert(rest[n - r] == text[n]);
        }
    }
}

/// A value on a line of its own is no key.
#[verifier::rlimit(40)]
proof fn lemma_value_is_no_key(text: Seq<char>, r: int, other: Seq<char>)
    requires
        word_key(other),
        0 < r <= text.len(),
        value_below(text.skip(r)),
    ensures
        !key_line(text, other, r + skip_white(text.skip(r), 0)),
{
    let rest = text.skip(r);
    assert forall|i: int| 0 <= i < rest.len() implies #[trigger] rest[i] == text[r + i] by {}
    let p = skip_white(rest, 0);
    lemma_skip_white(rest, 0);
    let e = line_stop(rest, p);
    lemma_line_stop(rest, p);
    let k = r + p;
    if key_line(text, other, k) {
        lemma_key_line(text, other, k);
        lemma_key_chars(text, other, k);
        let c = colon_of(text, other, k) - r;
        assert(rest[c] == ':');
        assert(white('\n'));
        if c < e {
            assert(rest.subrange(p, p + other.len()) =~= text.subrange(k, k + other.len()));
            assert forall|j: int| p + other.len() <= j < c implies white(#[trigger] rest[j]) by {
                assert(rest[j] == text[r + j]);
            }
            lemma_key_follows(rest, other, p, c + 1);
        } else {
            assert(e < rest.len());
            assert(p + other.len() <= e) by {
                if p + other.len() > e {
                    assert(!white(text[r + e]));
                    assert(rest[e] == text[r + e]);
                }
            }
            assert forall|j: int| e <= j < c implies white(#[trigger] rest[j]) by {
                assert(rest[j] == text[r + j]);
            }
            lemma_skip_white_to(rest, e, c);
        }
    }
}

/// Setting the value of one key leaves the value of another.
#[verifier::rlimit(60)]
proof fn lemma_keep_replaced(
    text: Seq<char>,
    key: Seq<char>,
    value: Seq<char>,
    other: Seq<char>,
)
    requires
        word_key(key),
        word_key(other),
        key != other,
        !value.contains('\n'),
        value.len() > 0,
        value[0] == '\'',
        find_rest(text, key, 0) is Some,
    ensures
        value_text(value_replaced(text, key, value), other) == value_text(text, other),
{
    let h = lemma_found(text, key);
    lemma_key_line(text, key, h);
    let r = colon_of(text, key, h) + 1;
    let rest = text.skip(r);
    lemma_value_span(rest);
    let e = r + value_end(rest);
    let new = value_replaced(text, key, value);
    let d = new.len() - text.len();
    lemma_exchanged(text, key, value, other, h);
    if find_rest(text, other, 0) is None {
        if find_rest(new, other, 0) is Some {
            let j = lemma_found(new, other);
            lemma_line_was_there(text, new, other, r, e, d, j);
            lemma_key_line(new, other, j);
            lemma_not_missed(text, other, if j >= r { j - d } else { j });
        }
    } else {
        let k = lemma_found(text, other);
        lemma_key_line(text, other, k);
        if k == h {
            lemma_same_key(text, key, other, k);
        } else if k < h {
            lemma_keep_before(text, new, key, h, other, k);
        } else {
            lemma_key_chars(text, key, h);
            assert(k >= r) by {
                if k < r {
                    lemma_colon_before(text, key, h, k);
                }
            }
            assert(k > e);
            lemma_keep_after(text, new, r, e, d, other, k);
        }
    }
}

/// What setting a value changes in a text.
#[verifier::rlimit(60)]
proof fn lemma_exchanged(
    text: Seq<char>,
    key: Seq<char>,
    value: Seq<char>,
    other: Seq<char>,
    h: int,
)
    requires
        plain_key(key),
        word_key(other),
        !value.contains('\n'),
        value.len() > 0,
        value[0] == '\'',
        0 <= h,
        key_line(text, key, h),
        find_rest(text, key, 0) == Some(colon_of(text, key, h) + 1),
    ensures
        ({
            let r = colon_of(text, key, h) + 1;
            let new = value_replaced(text, key, value);
            exchanged(text, new, other, r, r + value_end(text.skip(r)), new.len() - text.len())
        }),
{
    lemma_key_line(text, key, h);
    let r = colon_of(text, key, h) + 1;
    let rest = text.skip(r);
    lemma_value_span(rest);
    let e = r + value_end(rest);
    let new = value_replaced(text, key, value);
    let d = new.len() - text.len();
    let front = lead(rest);
    let tail = rest.skip(value_end(rest));
    assert(new == text.take(r) + (front + value + tail));
    assert(tail =~= text.skip(e));
    if e < text.len() {
        assert(rest[value_end(rest)] == text[e]);
        assert forall|x: int| e <= x < text.len() implies #[trigger] text[x] == new[x + d] by {
            assert(text.skip(e)[x - e] == text[x]);
        }
        assert(shifted(text, new, e, d));
    }
    assert forall|j: int| r <= j <= e implies !#[trigger] key_line(text, other, j) by {
        lemma_no_key_inside(text, r, other, j);
    }
    assert forall|j: int| r <= j <= e + d implies !#[trigger] key_line(new, other, j) by {
        lemma_new_line(text, r, front, value, tail, other, j);
    }
}

/// A new value brings no key with it.
#[verifier::rlimit(40)]
proof fn lemma_new_line(
    text: Seq<char>,
    r: int,
    front: Seq<char>,
    value: Seq<char>,
    tail: Seq<char>,
    other: Seq<char>,
    j: int,
)
    requires
        word_key(other),
        0 < r <= text.len(),
        text[r - 1] == ':',
        front == lead(text.skip(r)),
        !value.contains('\n'),
        value.len() > 0,
        value[0] == '\'',
        tail.len() > 0 ==> tail[0] == '\n',
        r <= j <= r + front.len() + value.len(),
    ensures
        !key_line(text.take(r) + (front + value + tail), other, j),
{
    reveal_strlit(" ");
    let rest = text.skip(r);
    let new = text.take(r) + (front + value + tail);
    lemma_value_span(rest);
    lemma_skip_white(rest, 0);
    lemma_skip_blank(rest, 0);
    lemma_line_stop(rest, 0);
    assert(white('\n'));
    let a = r + front.len();
    let e = a + value.len();
    assert forall|i: int| a <= i < e implies #[trigger] new[i] != '\n' by {
        assert(new[i] == value[i - a]);
        assert(value.contains(value[i - a]));
    }
    assert(new[a] == '\'');
    assert forall|i: int| r <= i < a implies white(#[trigger] new[i]) by {
        assert(new[i] == front[i - r]);
        if front.len() != 1 || front[0] != ' ' {
            assert(front[i - r] == rest[i - r]);
        }
    }
    if key_line(new, other, j) {
        lemma_key_line(new, other, j);
        assert(j != e) by {
            if j == e {
                assert(new[e] == tail[0]);
            }
        }
        assert(j >= a);
        assert(j != a);
        let n = lemma_feed_between(new, a, j);
    }
}

/// White space behind is trimmed.
proof fn lemma_trim_behind(s: Seq<char>, n: int)
    requires
        0 <= n <= s.len(),
        forall|i: int| n <= i < s.len() ==> white(#[trigger] s[i]),
    ensures
        trim_end(s) == trim_end(s.take(n)),
    decreases s.len(),
{
    if n < s.len() {
        assert(white(s[s.len() - 1]));
        lemma_trim_behind(s.drop_last(), n);
        assert(s.drop_last().take(n) =~= s.take(n));
    } else {
        assert(s.take(n) =~= s);
    }
}

/// White space behind makes no difference to the value.
proof fn lemma_trim_both(s: Seq<char>, n: int)
    requires
        0 <= n <= s.len(),
        forall|i: int| n <= i < s.len() ==> white(#[trigger] s[i]),
    ensures
        trim(s) == trim(s.take(n)),
    decreases s.len(),
{
    if n > 0 && white(s[0]) {
        let back = s.drop_first();
        assert forall|i: int| n - 1 <= i < back.len() implies white(#[trigger] back[i]) by {
            assert(white(s[i + 1]));
        }
        lemma_trim_both(back, n - 1);
        assert(s.take(n).drop_first() =~= back.take(n - 1));
    } else if n > 0 {
        lemma_trim_behind(s, n);
    } else {
        assert(s.take(0) =~= Seq::<char>::empty());
        if s.len() > 0 {
            assert(white(s[0]));
            let back = s.drop_first();
            assert forall|i: int| 0 <= i < back.len() implies white(#[trigger] back[i]) by {
                assert(white(s[i + 1]));
            }
            lemma_trim_both(back, 0);
            assert(back.take(0) =~= s.take(0));
        }
    }
}

/// Appending a line for one key brings no line for another.
#[verifier::rlimit(40)]
proof fn lemma_none_appended(
    text: Seq<char>,
    key: Seq<char>,
    value: Seq<char>,
    other: Seq<char>,
)
    requires
        plain_key(key),
        plain_key(other),
        key != other,
        !value.contains('\n'),
        find_rest(text, other, 0) is None,
    ensures
        find_rest(value_appended(text, key, value), other, 0) is None,
{
    let m = trim_end(text).len() as int;
    let new = value_appended(text, key, value);
    lemma_appended(text, key, value);
    if find_rest(new, other, 0) is Some {
        let j = lemma_found(new, other);
        if j <= m {
            lemma_appended_line(text, key, value, other, j);
            lemma_not_missed(text, other, j);
        } else {
            lemma_appended_last(text, key, value, other, j);
            lemma_same_key(new, key, other, j);
        }
    }
}

/// Appending a line leaves the value of another key's line.
#[verifier::rlimit(40)]
proof fn lemma_keep_appended(
    text: Seq<char>,
    key: Seq<char>,
    value: Seq<char>,
    other: Seq<char>,
)
    requires
        plain_key(key),
        plain_key(other),
        find_rest(text, other, 0) is Some,
    ensures
        scalar(value_text(value_appended(text, key, value), other), other) == scalar(
            value_text(text, other),
            other,
        ),
{
    let m = trim_end(text).len() as int;
    let new = value_appended(text, key, value);
    lemma_appended(text, key, value);
    lemma_trim_end_tail(text);
    let k = lemma_found(text, other);
    lemma_key_line(text, other, k);
    lemma_key_line(new, key, m + 1);
    let c = colon_of(text, other, k);
    assert(c < m) by {
        assert(!white(text[c]));
    }
    lemma_first_stays(text, new, other, k, m);
    let from = c + 1;
    let (s, t) = (text.skip(from), new.skip(from));
    assert forall|j: int| 0 <= j < m - from implies #[trigger] s[j] == t[j] by {
        assert(text[from + j] == new[from + j]);
    }
    assert forall|j: int| m - from <= j < s.len() implies white(#[trigger] s[j]) by {
        assert(s[j] == text[from + j]);
    }
    assert(t[m - from] == new[m]);
    assert(t[m - from + 1] == new[m + 1]);
    if m > from {
        assert(s[m - from - 1] == text[m - 1]);
        assert(text[m - 1] == trim_end(text).last());
    }
    lemma_cut_value(s, t, m - from);
}

/// What stands after a colon keeps its meaning if white space behind it is cut off, and a
/// line that starts with a key follows.
#[verifier::rlimit(60)]
proof fn lemma_cut_value(s: Seq<char>, t: Seq<char>, m: int)
    requires
        0 <= m <= s.len(),
        m + 1 < t.len(),
        forall|j: int| 0 <= j < m ==> #[trigger] s[j] == t[j],
        forall|j: int| m <= j < s.len() ==> white(#[trigger] s[j]),
        m > 0 ==> !white(s[m - 1]),
        t[m] == '\n',
        !white(t[m + 1]),
        t[m + 1] != ':',
    ensures
        trim(value_of(s)) == trim(value_of(t)),
{
    assert(white('\n'));
    lemma_value_span(s);
    lemma_value_span(t);
    lemma_skip_white(s, 0);
    lemma_line_stop(s, 0);
    if m == 0 {
        lemma_skip_white_to(s, 0, s.len() as int);
        lemma_skip_white_to(t, 0, 1);
        lemma_line_stop_to(t, 0, 0);
        lemma_skip_blank_to(t, 0, 0);
        lemma_trim_both(value_of(s), 0);
        assert(value_of(s).take(0) =~= value_of(t));
    } else {
        let p = skip_white(s, 0);
        assert(p < m);
        assert forall|j: int| 0 <= j < p implies white(#[trigger] t[j]) by {
            assert(s[j] == t[j]);
        }
        assert(s[p] == t[p]);
        lemma_skip_white_to(t, 0, p);
        lemma_cut_stop(s, t, 0, m);
        if value_here(s) {
            lemma_cut_line(s, t, p, line_stop(s, 0), line_stop(t, 0), m);
        } else {
            assert(s[p - 1] == t[p - 1]);
            lemma_cut_stop(s, t, p, m);
            let (e, f) = (line_stop(s, p), line_stop(t, p));
            lemma_cut_line(s, t, p, e, f, m);
            lemma_line_stop(s, p);
            lemma_skip_white(s, e);
            let next = skip_white(s, e);
            if e < m {
                assert(e != m - 1);
                assert(next <= m - 1);
                assert forall|j: int| e <= j < next implies white(#[trigger] t[j]) by {
                    assert(s[j] == t[j]);
                }
                assert(s[next] == t[next]);
                lemma_skip_white_to(t, e, next);
            } else {
                lemma_skip_white_to(s, e, s.len() as int);
                lemma_skip_white_to(t, m, m + 1);
            }
            let stop = line_stop(s, 0);
            let q = skip_blank(s, 0);
            lemma_skip_blank(s, 0);
            assert(q <= stop) by {
                if q > stop {
                    assert(blank(s[stop]));
                }
            }
            assert forall|j: int| 0 <= j < q implies blank(#[trigger] t[j]) by {
                assert(s[j] == t[j]);
            }
            assert(s[q] == t[q]);
            lemma_skip_blank_to(t, 0, q);
            assert(s.subrange(q, stop) =~= t.subrange(q, stop));
        }
    }
}

/// Where the line of `i` ends if white space is cut off at `m`.
proof fn lemma_cut_stop(s: Seq<char>, t: Seq<char>, i: int, m: int)
    requires
        0 <= i < m <= s.len(),
        m < t.len(),
        forall|j: int| 0 <= j < m ==> #[trigger] s[j] == t[j],
        t[m] == '\n',
    ensures
        i <= line_stop(s, i) <= s.len(),
        line_stop(t, i) == if line_stop(s, i) < m {
            line_stop(s, i)
        } else {
            m
        },
{
    lemma_line_stop(s, i);
    let e = line_stop(s, i);
    let f = if e < m {
        e
    } else {
        m
    };
    assert forall|j: int| i <= j < f implies #[trigger] t[j] != '\n' by {
        assert(s[j] == t[j]);
    }
    if e < m {
        assert(s[e] == t[e]);
    }
    lemma_line_stop_to(t, i, f);
}

/// A line means the same if white space behind it is cut off.
proof fn lemma_cut_line(s: Seq<char>, t: Seq<char>, p: int, e: int, f: int, m: int)
    requires
        0 <= p < m <= s.len(),
        m <= t.len(),
        p <= e <= s.len(),
        f == if e < m {
            e
        } else {
            m
        },
        forall|j: int| 0 <= j < m ==> #[trigger] s[j] == t[j],
        forall|j: int| m <= j < s.len() ==> white(#[trigger] s[j]),
    ensures
        trim(s.subrange(p, e)) == trim(t.subrange(p, f)),
        trim_end(s.subrange(p, e)) == trim_end(t.subrange(p, f)),
{
    let whole = s.subrange(p, e);
    assert(whole.take(f - p) =~= t.subrange(p, f));
    assert forall|i: int| f - p <= i < whole.len() implies white(#[trigger] whole[i]) by {
        assert(whole[i] == s[p + i]);
    }
    lemma_trim_both(whole, f - p);
    lemma_trim_behind(whole, f - p);
}

/// The appended line holds no key but its own.
proof fn lemma_appended_last(
    text: Seq<char>,
    key: Seq<char>,
    value: Seq<char>,
    other: Seq<char>,
    j: int,
)
    requires
        plain_key(key),
        plain_key(other),
        !value.contains('\n'),
        trim_end(text).len() < j,
        key_line(value_appended(text, key, value), other, j),
    ensures
        j == trim_end(text).len() + 1,
{
    reveal_strlit("\n");
    reveal_strlit(": ");
    let k = trim_end(text).len() as int + 1;
    let new = value_appended(text, key, value);
    lemma_appended(text, key, value);
    lemma_key_line(new, other, j);
    lemma_key_line(new, key, k);
    if j > k {
        let n = lemma_feed_between(new, k, j);
        let p = k + key.len() + 2;
        assert(new.len() == p + value.len() + 1);
        assert(p <= n < new.len() - 1);
        assert(new[n] == value[n - p]);
        assert(value.contains(value[n - p]));
    }
}

/// Setting the value of one key leaves the value of another as it was, unless the new
/// value brings a line feed with it. No key starts with a quote or is a single letter: a
/// line could then be both a value and a key.
pub proof fn law_setting_one_key_keeps_another(
    text: Seq<char>,
    key: Seq<char>,
    value: Seq<char>,
    other: Seq<char>,
)
    requires
        word_key(key),
        word_key(other),
        key != other,
        !value.contains('\n'),
    ensures
        scalar(value_text(with_value(text, key, quoted(value)), other), other) == scalar(
            value_text(text, other),
            other,
        ),
{
    lemma_quoted_line(value);
    if find_rest(text, key, 0) is Some {
        lemma_keep_replaced(text, key, quoted(value), other);
    } else if find_rest(text, other, 0) is Some {
        lemma_keep_appended(text, key, quoted(value), other);
    } else {
        lemma_none_appended(text, key, quoted(value), other);
    }
}

/// Quoting a value of one line gives one line, which starts with a quote.
proof fn lemma_quoted_line(value: Seq<char>)
    requires
        !value.contains('\n'),
    ensures
        quoted(value).len() > 0,
        quoted(value)[0] == '\'',
        !quoted(value).contains('\n'),
{
    reveal_strlit("'");
    reveal_strlit("''");
    assert(!"''"@.contains('\n'));
    lemma_replaced_lacks(value, '\'', "''"@, '\n');
    let inner = replaced(value, '\'', "''"@);
    assert forall|i: int| 0 <= i < quoted(value).len() implies quoted(value)[i] != '\n' by {
        if 0 < i < quoted(value).len() - 1 {
            assert(quoted(value)[i] == inner[i - 1]);
            assert(inner.contains(inner[i - 1]));
        }
    }
}

/// A text in which the first line of `key` stands after `before` and holds `rest` after
/// its colon; the white space around the key is free.
pub open spec fn key_text(
    before: Seq<char>,
    indent: Seq<char>,
    key: Seq<char>,
    gap: Seq<char>,
    rest: Seq<char>,
) -> Seq<char> {
    before + indent + key + gap + seq![':'] + rest
}

/// What stands around a key: lines without it before, and white space next to it.
pub open spec fn around_key(
    before: Seq<char>,
    indent: Seq<char>,
    key: Seq<char>,
    gap: Seq<char>,
) -> bool {
    &&& before.len() > 0 ==> before.last() == '\n'
    &&& !has_text(before, key)
    &&& forall|i: int| 0 <= i < indent.len() ==> white(#[trigger] indent[i])
    &&& forall|i: int| 0 <= i < gap.len() ==> white(#[trigger] gap[i])
}

/// What follows the first colon of the key is what is looked at.
#[verifier::rlimit(40)]
proof fn lemma_key_text(
    before: Seq<char>,
    indent: Seq<char>,
    key: Seq<char>,
    gap: Seq<char>,
    rest: Seq<char>,
)
    requires
        plain_key(key),
        around_key(before, indent, key, gap),
    ensures
        rest_text(key_text(before, indent, key, gap, rest), key) == Some(rest),
{
    let text = key_text(before, indent, key, gap, rest);
    let m = before.len() as int;
    let k = m + indent.len();
    let n = key.len() as int;
    let c = k + n + gap.len();
    assert(text.subrange(k, k + n) =~= key);
    assert forall|j: int| m <= j < k implies white(#[trigger] text[j]) by {
        assert(text[j] == indent[j - m]);
    }
    assert(line_start(text, m)) by {
        if m > 0 {
            assert(text[m - 1] == before[m - 1]);
        }
    }
    lemma_line_head(text, m, k);
    assert forall|j: int| k + n <= j < c implies white(#[trigger] text[j]) by {
        assert(text[j] == gap[j - k - n]);
    }
    assert(text[c] == ':');
    lemma_skip_white_to(text, k + n, c);
    assert(key_line(text, key, k));
    assert forall|j: int| 0 <= j < k implies !key_line(text, key, j) by {
        if key_line(text, key, j) {
            lemma_key_line(text, key, j);
            lemma_key_chars(text, key, j);
            assert(j < m);
            if j + n <= m {
                assert(before.subrange(j, j + n) =~= text.subrange(j, j + n));
                assert(has_at(before, j, key));
            } else {
                assert(text[m - 1] == before[m - 1]);
                assert(white('\n'));
            }
        }
    }
    lemma_find(text, key, k);
    assert(text.skip(c + 1) =~= rest);
}

/// White space of one line.
pub open spec fn one_line_blank(front: Seq<char>) -> bool {
    forall|i: int| 0 <= i < front.len() ==> white(#[trigger] front[i]) && front[i] != '\n'
}

/// A value on its key's line is read as it stands there, whatever it holds: it starts and
/// ends with no white space, is not in quotes, and has no blank before a number sign.
pub proof fn law_plain_value_is_read(
    before: Seq<char>,
    indent: Seq<char>,
    key: Seq<char>,
    gap: Seq<char>,
    front: Seq<char>,
    value: Seq<char>,
    tail: Seq<char>,
)
    requires
        plain_key(key),
        around_key(before, indent, key, gap),
        one_line_blank(front),
        value.len() > 0,
        trimmed(value),
        !value.contains('\n'),
        !has_text(value, " #"@),
        !(value.len() >= 2 && value[0] == value.last() && (value[0] == '\'' || value[0] == '"')),
        tail.len() > 0 ==> tail[0] == '\n',
    ensures
        scalar(
            value_text(key_text(before, indent, key, gap, front + value + tail), key),
            key,
        ) == Ok::<Seq<char>, Fault>(value),
{
    let rest = front + value + tail;
    lemma_key_text(before, indent, key, gap, rest);
    assert(parted(rest, front, value, tail));
    lemma_read_here(rest, front, value, tail);
    lemma_trimmed(value);
    reveal_strlit(" #");
    lemma_first_at_none(value, " #"@, 0);
}

/// A value in quotes on its key's line is read as what stands between the quotes.
pub proof fn law_quoted_value_is_read(
    before: Seq<char>,
    indent: Seq<char>,
    key: Seq<char>,
    gap: Seq<char>,
    front: Seq<char>,
    quote: char,
    value: Seq<char>,
    tail: Seq<char>,
)
    requires
        plain_key(key),
        around_key(before, indent, key, gap),
        one_line_blank(front),
        quote == '\'' || quote == '"',
        value.len() > 0,
        !value.contains('\n'),
        !has_text(value, " #"@),
        tail.len() > 0 ==> tail[0] == '\n',
    ensures
        scalar(
            value_text(
                key_text(before, indent, key, gap, front + (seq![quote] + value + seq![quote]) + tail),
                key,
            ),
            key,
        ) == Ok::<Seq<char>, Fault>(value),
{
    let q = seq![quote] + value + seq![quote];
    let rest = front + q + tail;
    assert forall|i: int| 0 <= i < q.len() implies q[i] != '\n' by {
        if 0 < i < q.len() - 1 {
            assert(q[i] == value[i - 1]);
            assert(value.contains(value[i - 1]));
        }
    }
    lemma_key_text(before, indent, key, gap, rest);
    assert(parted(rest, front, q, tail));
    lemma_read_here(rest, front, q, tail);
    lemma_trimmed(q);
    reveal_strlit(" #");
    assert forall|j: int| 0 <= j implies !has_at(q, j, " #"@) by {
        if has_at(q, j, " #"@) {
            assert(q.subrange(j, j + 2)[0] == q[j]);
            assert(q.subrange(j, j + 2)[1] == q[j + 1]);
            assert(0 < j && j + 1 < q.len() - 1);
            assert(value.subrange(j - 1, j + 1) =~= " #"@);
            assert(has_at(value, j - 1, " #"@));
        }
    }
    lemma_first_at_none(q, " #"@, 0);
    assert(q.subrange(1, q.len() - 1) =~= value);
}

/// A comment, which starts at a blank and a number sign, is no part of the value.
pub proof fn law_comment_is_no_value(raw: Seq<char>, comment: Seq<char>)
    requires
        raw.len() > 0,
        trimmed(raw),
        !has_text(raw, " #"@),
        comment.len() > 0 ==> !white(comment.last()),
    ensures
        unquoted(raw + " #"@ + comment) == unquoted(raw),
{
    reveal_strlit(" #");
    let whole = raw + " #"@ + comment;
    let n = raw.len() as int;
    lemma_trimmed(raw);
    assert(whole[0] == raw[0]);
    assert(whole.last() == if comment.len() > 0 { comment.last() } else { '#' });
    lemma_trimmed(whole);
    lemma_first_at_none(raw, " #"@, 0);
    assert(whole.subrange(n, n + 2) =~= " #"@);
    lemma_comment_at(raw, comment, 0);
    assert(whole.take(n) =~= raw);
}

proof fn lemma_comment_at(raw: Seq<char>, comment: Seq<char>, i: int)
    requires
        !has_text(raw, " #"@),
        raw.len() > 0,
        trimmed(raw),
        0 <= i <= raw.len(),
    ensures
        first_at(raw + " #"@ + comment, " #"@, i) == Some(raw.len() as int),
    decreases raw.len() - i,
{
    reveal_strlit(" #");
    let whole = raw + " #"@ + comment;
    let n = raw.len() as int;
    if i < n {
        if has_at(whole, i, " #"@) {
            assert(whole.subrange(i, i + 2)[0] == whole[i]);
            assert(whole.subrange(i, i + 2)[1] == whole[i + 1]);
            if i + 1 < n {
                assert(raw.subrange(i, i + 2) =~= " #"@);
                assert(has_at(raw, i, " #"@));
            } else {
                assert(white(raw.last()));
            }
        }
        lemma_comment_at(raw, comment, i + 1);
    } else {
        assert(whole.subrange(n, n + 2) =~= " #"@);
    }
}

/// A text that does not hold the key has no value for it, and an empty value counts as
/// none, too.
pub proof fn law_missing_value_is_told(
    text: Seq<char>,
    before: Seq<char>,
    indent: Seq<char>,
    key: Seq<char>,
    gap: Seq<char>,
)
    requires
        plain_key(key),
        around_key(before, indent, key, gap),
        !has_text(text, key),
    ensures
        scalar(value_text(text, key), key) == Err::<Seq<char>, Fault>(Fault::MissingKey(key)),
        scalar(value_text(key_text(before, indent, key, gap, Seq::empty()), key), key) == Err::<
            Seq<char>,
            Fault,
        >(Fault::EmptyKey(key)),
{
    if find_rest(text, key, 0) is Some {
        let k = lemma_found(text, key);
        assert(has_at(text, k, key));
    }
    let empty = Seq::<char>::empty();
    lemma_key_text(before, indent, key, gap, empty);
    assert(value_of(empty) =~= empty);
    assert(trim(empty) =~= empty);
    reveal_strlit(" #");
    assert forall|j: int| 0 <= j implies !has_at(empty, j, " #"@) by {}
    lemma_first_at_none(empty, " #"@, 0);
}

/// Setting a value changes nothing but that value: all that stands before and after it
/// stays. The places that are returned part the text; what stands between them is of one
/// line.
pub proof fn law_setting_changes_the_value_alone(
    text: Seq<char>,
    key: Seq<char>,
    value: Seq<char>,
) -> (res: (int, int))
    requires
        plain_key(key),
        find_rest(text, key, 0) is Some,
    ensures
        0 <= res.0 <= res.1 <= text.len(),
        with_value(text, key, value) == text.take(res.0) + value + text.skip(res.1) || with_value(
            text,
            key,
            value,
        ) == text.take(res.0) + seq![' '] + value + text.skip(res.1),
        !text.subrange(res.0, res.1).contains('\n'),
        res.1 < text.len() ==> text[res.1] == '\n',
{
    reveal_strlit(" ");
    let k = lemma_found(text, key);
    lemma_key_line(text, key, k);
    let r = colon_of(text, key, k) + 1;
    let rest = text.skip(r);
    lemma_value_span(rest);
    let (a, b) = (r + value_start(rest), r + value_end(rest));
    let new = with_value(text, key, value);
    assert(rest.skip(value_end(rest)) =~= text.skip(b));
    if value_start(rest) == 0 && !value_here(rest) {
        assert(new =~= text.take(a) + seq![' '] + value + text.skip(b));
    } else {
        assert(text.take(r) + rest.take(value_start(rest)) =~= text.take(a));
        assert(new =~= text.take(a) + value + text.skip(b));
    }
    lemma_line_stop(rest, 0);
    lemma_skip_white(rest, 0);
    lemma_line_stop(rest, skip_white(rest, 0));
    assert forall|i: int| a <= i < b implies text[i] != '\n' by {
        assert(rest[i - r] == text[i]);
    }
    (a, b)
}

/// Where there is no value yet, a line is added at the end, and what stood there stays but
/// for white space at its end.
pub proof fn law_missing_value_is_appended(text: Seq<char>, key: Seq<char>, value: Seq<char>)
    requires
        find_rest(text, key, 0) is None,
    ensures
        with_value(text, key, value) == trim_end(text) + seq!['\n'] + key + seq![':', ' '] + value
            + seq!['\n'],
{
    reveal_strlit("\n");
    reveal_strlit(": ");
    assert("\n"@ =~= seq!['\n']);
    assert(": "@ =~= seq![':', ' ']);
}

/// What follows a value: nothing, or further lines of which the first with any text does
/// not start with a colon.
pub open spec fn further_lines(tail: Seq<char>) -> bool {
    &&& tail.len() > 0 ==> tail[0] == '\n'
    &&& forall|i: int|
        0 <= i < tail.len() && #[trigger] tail[i] == ':' ==> exists|j: int|
            0 <= j < i && !white(#[trigger] tail[j])
}

/// White space that leads to an indented place on a later line.
pub open spec fn indented_below(front: Seq<char>) -> bool {
    &&& front.contains('\n')
    &&& front.last() != '\n' && front.last() != '\r'
    &&& forall|i: int| 0 <= i < front.len() ==> white(#[trigger] front[i])
}

proof fn lemma_read_below(rest: Seq<char>, front: Seq<char>, value: Seq<char>, tail: Seq<char>)
    requires
        parted(rest, front, value, tail),
        indented_below(front),
        further_lines(tail),
        !key_shaped(value),
    ensures
        value_of(rest) == value,
{
    lemma_parted(rest, front, value, tail);
    let p = front.len() as int;
    let e = p + value.len();
    let f = choose|f: int| 0 <= f < front.len() && front[f] == '\n';
    assert(rest[f] == front[f]);
    lemma_line_stop(rest, 0);
    assert(line_stop(rest, 0) <= f);
    assert(rest[p - 1] == front.last());
    lemma_skip_white(rest, e);
    let next = skip_white(rest, e);
    if next < rest.len() && rest[next] == ':' {
        assert(tail[next - e] == ':');
        let j = choose|j: int| 0 <= j < next - e && !white(#[trigger] tail[j]);
        assert(rest[e + j] == tail[j]);
    }
}

/// A value on a line of its own, indented below its key, is read as it stands there. It may
/// hold a colon only behind the letter of a drive.
pub proof fn law_value_below_its_key_is_read(
    before: Seq<char>,
    indent: Seq<char>,
    key: Seq<char>,
    gap: Seq<char>,
    front: Seq<char>,
    value: Seq<char>,
    tail: Seq<char>,
)
    requires
        plain_key(key),
        around_key(before, indent, key, gap),
        indented_below(front),
        value.len() > 0,
        trimmed(value),
        !value.contains('\n'),
        !has_text(value, " #"@),
        !(value.len() >= 2 && value[0] == value.last() && (value[0] == '\'' || value[0] == '"')),
        forall|i: int|
            0 <= i < value.len() && #[trigger] value[i] == ':' ==> i == 1 && value.len() > 2 && (
            value[2] == '/' || value[2] == '\\') && ('a' <= value[0] <= 'z' || 'A' <= value[0]
                <= 'Z'),
        further_lines(tail),
    ensures
        scalar(
            value_text(key_text(before, indent, key, gap, front + value + tail), key),
            key,
        ) == Ok::<Seq<char>, Fault>(value),
{
    let rest = front + value + tail;
    lemma_key_text(before, indent, key, gap, rest);
    assert(parted(rest, front, value, tail));
    assert(!key_shaped(value)) by {
        lemma_word_bounds(value, 0);
        let n = word_end(value, 0);
        lemma_skip_white(value, n);
        assert forall|i: int| 0 <= i < value.len() implies !breaks_at(value, i) by {
            if breaks_at(value, i) {
                assert(value[i] == ':');
                assert(!white(value[2]));
            }
        }
        if starts_with_key(value) {
            assert(value[skip_white(value, n)] == ':');
        }
    }
    lemma_read_below(rest, front, value, tail);
    lemma_trimmed(value);
    reveal_strlit(" #");
    lemma_first_at_none(value, " #"@, 0);
}

proof fn lemma_word_bounds(line: Seq<char>, i: int)
    requires
        0 <= i <= line.len(),
    ensures
        i <= word_end(line, i) <= line.len(),
    decreases line.len() - i,
{
    if i < line.len() && !white(line[i]) && line[i] != ':' {
        lemma_word_bounds(line, i + 1);
    }
}

/// A text in quotes that holds no quote ends at its last character.
proof fn lemma_quote_end(line: Seq<char>, i: int, quote: char)
    requires
        1 <= i < line.len(),
        line.last() == quote,
        forall|j: int| i <= j < line.len() - 1 ==> #[trigger] line[j] != quote,
    ensures
        quote_end(line, i, quote) == line.len() - 1,
    decreases line.len() - i,
{
    if i < line.len() - 1 {
        lemma_quote_end(line, i + 1, quote);
    }
}

/// A value in quotes on a line of its own, indented below its key, is read as what stands
/// between the quotes, whatever colons it holds.
pub proof fn law_quoted_value_below_its_key_is_read(
    before: Seq<char>,
    indent: Seq<char>,
    key: Seq<char>,
    gap: Seq<char>,
    front: Seq<char>,
    quote: char,
    value: Seq<char>,
    tail: Seq<char>,
)
    requires
        plain_key(key),
        around_key(before, indent, key, gap),
        indented_below(front),
        quote == '\'' || quote == '"',
        value.len() > 0,
        !value.contains(quote),
        !value.contains('\n'),
        !has_text(value, " #"@),
        further_lines(tail),
    ensures
        scalar(
            value_text(
                key_text(before, indent, key, gap, front + (seq![quote] + value + seq![quote]) + tail),
                key,
            ),
            key,
        ) == Ok::<Seq<char>, Fault>(value),
{
    let q = seq![quote] + value + seq![quote];
    let rest = front + q + tail;
    assert forall|i: int| 0 < i < q.len() - 1 implies q[i] != '\n' && q[i] != quote by {
        assert(q[i] == value[i - 1]);
        assert(value.contains(value[i - 1]));
    }
    assert(!q.contains('\n'));
    lemma_key_text(before, indent, key, gap, rest);
    assert(parted(rest, front, q, tail));
    lemma_quote_end(q, 1, quote);
    assert(all_in_quotes(q));
    lemma_read_below(rest, front, q, tail);
    lemma_trimmed(q);
    reveal_strlit(" #");
    assert forall|j: int| 0 <= j implies !has_at(q, j, " #"@) by {
        if has_at(q, j, " #"@) {
            assert(q.subrange(j, j + 2)[0] == q[j]);
            assert(q.subrange(j, j + 2)[1] == q[j + 1]);
            assert(0 < j && j + 1 < q.len() - 1);
            assert(value.subrange(j - 1, j + 1) =~= " #"@);
            assert(has_at(value, j - 1, " #"@));
        }
    }
    lemma_first_at_none(q, " #"@, 0);
    assert(q.subrange(1, q.len() - 1) =~= value);
}

/// The next key is no value: a key with nothing behind its colon before another key's line
/// has an empty value.
pub proof fn law_next_key_is_no_value(
    before: Seq<char>,
    indent: Seq<char>,
    key: Seq<char>,
    gap: Seq<char>,
    front: Seq<char>,
    other: Seq<char>,
    more: Seq<char>,
)
    requires
        plain_key(key),
        around_key(before, indent, key, gap),
        front.contains('\n'),
        forall|i: int| 0 <= i < front.len() ==> white(#[trigger] front[i]),
        other.len() > 0,
        other[0] != '\'' && other[0] != '"',
        forall|i: int| 0 <= i < other.len() ==> !white(#[trigger] other[i]),
        more.len() > 0 ==> white(more[0]),
    ensures
        scalar(
            value_text(key_text(before, indent, key, gap, front + other + seq![':'] + more), key),
            key,
        ) == Err::<Seq<char>, Fault>(Fault::EmptyKey(key)),
{
    let rest = front + other + seq![':'] + more;
    let p = front.len() as int;
    let m = other.len() as int;
    lemma_key_text(before, indent, key, gap, rest);
    assert(rest[p] == other[0]);
    assert forall|i: int| 0 <= i < p implies white(#[trigger] rest[i]) by {
        assert(rest[i] == front[i]);
    }
    lemma_skip_white_to(rest, 0, p);
    let f = choose|f: int| 0 <= f < front.len() && front[f] == '\n';
    assert(rest[f] == front[f]);
    lemma_line_stop(rest, 0);
    let stop = line_stop(rest, 0);
    assert(stop <= f);
    lemma_line_stop(rest, p);
    let e = line_stop(rest, p);
    assert(rest[p + m] == ':');
    assert(e > p + m) by {
        if e <= p + m {
            assert(rest[e] == '\n');
            if e < p + m {
                assert(rest[e] == other[e - p]);
                assert(white('\n'));
            }
        }
    }
    let line = rest.subrange(p, e);
    assert(line[m] == ':');
    law_trim_end_takes_the_white_space(line);
    let first = first_line(rest);
    assert(first == trim_end(line));
    assert(first.len() > m);
    assert(first[m] == line[m]);
    assert(first[0] == line[0]);
    assert(line[0] == other[0]);
    if m + 1 < first.len() {
        assert(first[m + 1] == line[m + 1]);
        assert(line[m + 1] == rest[p + m + 1]);
        assert(rest[p + m + 1] == more[0]);
    }
    assert(breaks_at(first, m));
    assert(key_shaped(first));
    lemma_value_span(rest);
    let raw = value_of(rest);
    let (a, b) = law_trim_takes_the_white_space(raw);
    if trim(raw).len() > 0 {
        assert(trim(raw)[0] == raw[a]);
        assert(raw[a] == rest[value_start(rest) + a]);
    }
    let empty = Seq::<char>::empty();
    assert(trim(raw) =~= empty);
    reveal_strlit(" #");
    assert forall|j: int| 0 <= j implies !has_at(empty, j, " #"@) by {}
    lemma_first_at_none(empty, " #"@, 0);
}

/// A value that is written in quotes has its own single quotes doubled and is otherwise
/// unchanged.
pub proof fn law_quotes_are_doubled(value: Seq<char>, a: Seq<char>, b: Seq<char>)
    requires
        !value.contains('\''),
    ensures
        quoted(value) == seq!['\''] + value + seq!['\''],
        quoted(a + seq!['\''] + b) == quoted(a).drop_last() + seq!['\'', '\''] + quoted(b).skip(1),
{
    reveal_strlit("'");
    reveal_strlit("''");
    assert("'"@ =~= seq!['\'']);
    assert("''"@ =~= seq!['\'', '\'']);
    lemma_replaced_none(value, '\'', "''"@);
    law_replacing_goes_by_characters(a, seq!['\''], '\'', "''"@);
    law_replacing_goes_by_characters(a + seq!['\''], b, '\'', "''"@);
    assert(quoted(a + seq!['\''] + b) =~= quoted(a).drop_last() + seq!['\'', '\''] + quoted(b).skip(
        1,
    ));
}

/// Naming the shared folder's device sets the value of its id where there is one. Otherwise
/// one line is put in front, and all that stood there follows it.
pub proof fn law_naming_changes_the_id_alone(text: Seq<char>)
    ensures
        find_rest(text, "installation_id"@, 0) is Some ==> webdav_installation(text) == with_value(
            text,
            "installation_id"@,
            "WebDAV"@,
        ),
        find_rest(text, "installation_id"@, 0) is None ==> exists|line: Seq<char>|
            #[trigger] (line + seq!['\n'] + text) == webdav_installation(text) && line
                == "installation_id"@ + seq![':', ' '] + "WebDAV"@,
{
    if find_rest(text, "installation_id"@, 0) is None {
        reveal_strlit("installation_id: WebDAV\n");
        reveal_strlit("installation_id");
        reveal_strlit("WebDAV");
        let line = "installation_id"@ + seq![':', ' '] + "WebDAV"@;
        assert("installation_id: WebDAV\n"@ =~= line + seq!['\n']);
        assert(webdav_installation(text) =~= line + seq!['\n'] + text);
    }
}

} // verus!
