//! Text as a sequence of characters: the vocabulary that the other modules'
//! contracts are written in, and the executable functions that meet it.
use vstd::prelude::*;
use vstd::utf8::is_ascii_chars;

verus! {

/// `String::push` appends the given character to the end of the string.
pub assume_specification[ String::push ](text: &mut String, c: char)
    ensures
        final(text)@ == old(text)@.push(c),
;

/// The error of `String::from_utf8`.
#[verifier::external_type_specification]
#[verifier::external_body]
pub struct ExFromUtf8Error(std::string::FromUtf8Error);

/// `String::from_utf8` accepts exactly the well-formed UTF-8 sequences, and
/// returns the text that such a sequence encodes.
pub assume_specification[ String::from_utf8 ](bytes: Vec<u8>) -> (res: Result<
    String,
    std::string::FromUtf8Error,
>)
    ensures
        match res {
            Ok(text) => vstd::utf8::valid_utf8(bytes@) && text@ == vstd::utf8::decode_utf8(bytes@),
            Err(_) => !vstd::utf8::valid_utf8(bytes@),
        },
;

/// What `str::to_lowercase` makes of a text that is not all ASCII.
pub uninterp spec fn unicode_lowercase(text: Seq<char>) -> Seq<char>;

/// `text` in lower case.
pub open spec fn lowered(text: Seq<char>) -> Seq<char> {
    if is_ascii_chars(text) {
        ascii_lower(text)
    } else {
        unicode_lowercase(text)
    }
}

/// `str::to_lowercase` lower-cases by the Unicode rules, which are fixed tables; in
/// an ASCII text these change the letters `A` to `Z` alone. What they make of other
/// texts is left to the name.
pub assume_specification[ str::to_lowercase ](text: &str) -> (res: String)
    ensures
        res@ == (if is_ascii_chars(text@) {
            ascii_lower(text@)
        } else {
            unicode_lowercase(text@)
        }),
;

/// The characters with the Unicode property `White_Space`.
pub open spec fn white(c: char) -> bool {
    ||| '\u{9}' <= c <= '\u{d}'
    ||| c == ' '
    ||| c == '\u{85}'
    ||| c == '\u{a0}'
    ||| c == '\u{1680}'
    ||| '\u{2000}' <= c <= '\u{200a}'
    ||| c == '\u{2028}'
    ||| c == '\u{2029}'
    ||| c == '\u{202f}'
    ||| c == '\u{205f}'
    ||| c == '\u{3000}'
}

/// Tells whether `c` is white space.
pub fn is_white(c: char) -> (res: bool)
    ensures
        res == white(c),
{
    ('\u{9}' <= c && c <= '\u{d}') || c == ' ' || c == '\u{85}' || c == '\u{a0}' || c == '\u{1680}'
        || ('\u{2000}' <= c && c <= '\u{200a}') || c == '\u{2028}' || c == '\u{2029}' || c
        == '\u{202f}' || c == '\u{205f}' || c == '\u{3000}'
}

/// The characters of `text`, one by one.
pub fn chars_of(text: &str) -> (res: Vec<char>)
    ensures
        res@ == text@,
{
    let mut res: Vec<char> = Vec::new();
    for c in it: text.chars()
        invariant
            it.seq() == text@,
            res@ == text@.take(it.index()),
    {
        res.push(c);
        assert(text@.take(it.index() + 1) == text@.take(it.index()).push(c));
    }
    assert(text@.take(text@.len() as int) == text@);
    res
}

/// The text made of `chars[from..to]`.
pub fn text_of(chars: &Vec<char>, from: usize, to: usize) -> (res: String)
    requires
        from <= to <= chars@.len(),
    ensures
        res@ == chars@.subrange(from as int, to as int),
{
    let mut res = String::new();
    let mut i: usize = from;
    while i < to
        invariant
            from <= i <= to <= chars@.len(),
            res@ == chars@.subrange(from as int, i as int),
        decreases to - i,
    {
        res.push(chars[i]);
        i = i + 1;
        assert(chars@.subrange(from as int, i as int) == chars@.subrange(
            from as int,
            i - 1,
        ).push(chars@[i - 1]));
    }
    res
}

/// `c` with an upper-case ASCII letter made lower-case.
pub open spec fn lower_char(c: char) -> char {
    if 'A' <= c <= 'Z' {
        ((c as u8) + 32) as char
    } else {
        c
    }
}

/// Lower-cases `c` if it is an ASCII letter.
pub fn to_lower_char(c: char) -> (res: char)
    ensures
        res == lower_char(c),
{
    if 'A' <= c && c <= 'Z' {
        ((c as u8) + 32) as char
    } else {
        c
    }
}

/// `s` with every ASCII letter lower-case.
pub open spec fn ascii_lower(s: Seq<char>) -> Seq<char> {
    s.map_values(|c: char| lower_char(c))
}

/// `s` without its leading white space.
pub open spec fn trim_start(s: Seq<char>) -> Seq<char>
    decreases s.len(),
{
    if s.len() > 0 && white(s[0]) {
        trim_start(s.drop_first())
    } else {
        s
    }
}

/// `s` without its trailing white space.
pub open spec fn trim_end(s: Seq<char>) -> Seq<char>
    decreases s.len(),
{
    if s.len() > 0 && white(s.last()) {
        trim_end(s.drop_last())
    } else {
        s
    }
}

/// `s` without the white space on either side.
pub open spec fn trim(s: Seq<char>) -> Seq<char> {
    trim_end(trim_start(s))
}

/// `s` without the characters `c` that it ends with.
pub open spec fn strip_end(s: Seq<char>, c: char) -> Seq<char>
    decreases s.len(),
{
    if s.len() > 0 && s.last() == c {
        strip_end(s.drop_last(), c)
    } else {
        s
    }
}

/// `s` without the characters `c` that it starts with.
pub open spec fn strip_start(s: Seq<char>, c: char) -> Seq<char>
    decreases s.len(),
{
    if s.len() > 0 && s[0] == c {
        strip_start(s.drop_first(), c)
    } else {
        s
    }
}

/// The pieces of `s` between the occurrences of `sep`; always at least one.
pub open spec fn split_on(s: Seq<char>, sep: char) -> Seq<Seq<char>>
    decreases s.len(),
{
    if s.len() == 0 {
        seq![Seq::<char>::empty()]
    } else {
        let parts = split_on(s.drop_last(), sep);
        if s.last() == sep {
            parts.push(Seq::<char>::empty())
        } else {
            parts.drop_last().push(parts.last().push(s.last()))
        }
    }
}

/// The pieces one after another, with `sep` between each two.
pub open spec fn join(parts: Seq<Seq<char>>, sep: Seq<char>) -> Seq<char>
    decreases parts.len(),
{
    if parts.len() == 0 {
        Seq::<char>::empty()
    } else if parts.len() == 1 {
        parts[0]
    } else {
        join(parts.drop_last(), sep) + sep + parts.last()
    }
}

/// The lines one after another, each ended by a line feed.
pub open spec fn terminated(all: Seq<Seq<char>>) -> Seq<char>
    decreases all.len(),
{
    if all.len() == 0 {
        Seq::<char>::empty()
    } else {
        terminated(all.drop_last()) + all.last() + "\n"@
    }
}

/// `s` has no white space at either end.
pub open spec fn trimmed(s: Seq<char>) -> bool {
    s.len() > 0 ==> !white(s[0]) && !white(s.last())
}

/// `s` without one carriage return at its end.
pub open spec fn chomp(s: Seq<char>) -> Seq<char> {
    if s.len() > 0 && s.last() == '\r' {
        s.drop_last()
    } else {
        s
    }
}

/// The lines of `s`: each ends at a line feed, or a carriage return and a line
/// feed, neither of which belongs to it. The last one needs no line feed.
pub open spec fn lines(s: Seq<char>) -> Seq<Seq<char>> {
    let parts = split_on(s, '\n');
    let ended = parts.drop_last().map_values(|p: Seq<char>| chomp(p));
    if parts.last().len() == 0 {
        ended
    } else {
        ended.push(parts.last())
    }
}

/// `pat` stands in `s` at position `i`.
pub open spec fn has_at(s: Seq<char>, i: int, pat: Seq<char>) -> bool {
    0 <= i && i + pat.len() <= s.len() && s.subrange(i, i + pat.len()) == pat
}

/// `pat` stands somewhere in `s`.
pub open spec fn has_text(s: Seq<char>, pat: Seq<char>) -> bool {
    exists|i: int| has_at(s, i, pat)
}

/// The first position from `from` on at which `pat` stands in `s`.
pub open spec fn first_at(s: Seq<char>, pat: Seq<char>, from: int) -> Option<int>
    decreases s.len() + 1 - from,
{
    if from > s.len() {
        None
    } else if has_at(s, from, pat) {
        Some(from)
    } else {
        first_at(s, pat, from + 1)
    }
}

/// The last position below `end` at which `pat` stands in `s`.
pub open spec fn last_at(s: Seq<char>, pat: Seq<char>, end: int) -> Option<int>
    decreases end,
{
    if end <= 0 {
        None
    } else if has_at(s, end - 1, pat) {
        Some(end - 1)
    } else {
        last_at(s, pat, end - 1)
    }
}

/// What stands before and after the first `pat` in `s`.
pub open spec fn split_first(s: Seq<char>, pat: Seq<char>) -> Option<(Seq<char>, Seq<char>)> {
    match first_at(s, pat, 0) {
        Some(i) => Some((s.take(i), s.skip(i + pat.len()))),
        None => None,
    }
}

/// What stands before and after the last `pat` in `s`.
pub open spec fn split_last(s: Seq<char>, pat: Seq<char>) -> Option<(Seq<char>, Seq<char>)> {
    match last_at(s, pat, s.len() as int + 1) {
        Some(i) => Some((s.take(i), s.skip(i + pat.len()))),
        None => None,
    }
}

/// `s` with `to` in the place of every `from`.
pub open spec fn replaced(s: Seq<char>, from: char, to: Seq<char>) -> Seq<char>
    decreases s.len(),
{
    if s.len() == 0 {
        s
    } else if s.last() == from {
        replaced(s.drop_last(), from, to) + to
    } else {
        replaced(s.drop_last(), from, to).push(s.last())
    }
}

/// The decimal digit for a number below ten.
pub open spec fn digit(n: nat) -> char {
    (('0' as u32) + n) as char
}

/// `n` in decimal notation.
pub open spec fn decimal(n: nat) -> Seq<char>
    decreases n,
{
    if n < 10 {
        seq![digit(n)]
    } else {
        decimal(n / 10).push(digit(n % 10))
    }
}

/// What the strings of a list hold.
pub open spec fn views(list: Seq<String>) -> Seq<Seq<char>> {
    list.map_values(|s: String| s@)
}

/// What an optional text holds.
pub open spec fn optional_view(text: Option<String>) -> Option<Seq<char>> {
    match text {
        Some(s) => Some(s@),
        None => None,
    }
}

/// What a list of optional texts holds.
pub open spec fn optional_views(list: Seq<Option<String>>) -> Seq<Option<Seq<char>>> {
    list.map_values(|text: Option<String>| optional_view(text))
}

/// Two texts, one after the other.
pub fn pair(first: &str, second: &str) -> (res: String)
    ensures
        res@ == first@ + second@,
{
    let mut res = String::new();
    res.append(first);
    res.append(second);
    assert(res@ == first@ + second@);
    res
}

/// Three texts, one after the other.
pub fn triple(first: &str, second: &str, third: &str) -> (res: String)
    ensures
        res@ == first@ + second@ + third@,
{
    let mut res = pair(first, second);
    res.append(third);
    res
}

/// Tells whether two texts are the same.
pub fn same_text(a: &str, b: &str) -> (res: bool)
    ensures
        res == (a@ == b@),
{
    let x = chars_of(a);
    let y = chars_of(b);
    if x.len() != y.len() {
        return false;
    }
    let mut i: usize = 0;
    while i < x.len()
        invariant
            i <= x@.len(),
            x@.len() == y@.len(),
            x@.take(i as int) == y@.take(i as int),
            x@ == a@,
            y@ == b@,
        decreases x@.len() - i,
    {
        if x[i] != y[i] {
            assert(a@[i as int] != b@[i as int]);
            return false;
        }
        i = i + 1;
        assert(x@.take(i as int) == x@.take(i - 1).push(x@[i - 1]));
        assert(y@.take(i as int) == y@.take(i - 1).push(y@[i - 1]));
    }
    assert(x@.take(i as int) == x@);
    assert(y@.take(i as int) == y@);
    true
}

/// Lower-cases the ASCII letters of a text.
pub fn to_ascii_lower(text: &str) -> (res: String)
    ensures
        res@ == ascii_lower(text@),
{
    let chars = chars_of(text);
    let mut res = String::new();
    let mut i: usize = 0;
    while i < chars.len()
        invariant
            i <= chars@.len(),
            chars@ == text@,
            res@ == ascii_lower(text@.take(i as int)),
        decreases chars@.len() - i,
    {
        res.push(to_lower_char(chars[i]));
        i = i + 1;
        assert(ascii_lower(text@.take(i as int)) == ascii_lower(text@.take(i - 1)).push(
            lower_char(text@[i - 1]),
        ));
    }
    assert(text@.take(i as int) == text@);
    res
}

/// Tells whether two texts are the same but for the case of ASCII letters.
pub fn same_ignoring_case(a: &str, b: &str) -> (res: bool)
    ensures
        res == (ascii_lower(a@) == ascii_lower(b@)),
{
    same_text(to_ascii_lower(a).as_str(), to_ascii_lower(b).as_str())
}

/// Where the text without its trailing white space ends.
fn trimmed_end(chars: &Vec<char>, from: usize) -> (res: usize)
    requires
        from <= chars@.len(),
    ensures
        from <= res <= chars@.len(),
        trim_end(chars@.skip(from as int)) == chars@.subrange(from as int, res as int),
{
    let mut end: usize = chars.len();
    assert(chars@.subrange(from as int, end as int) == chars@.skip(from as int));
    while end > from && is_white(chars[end - 1])
        invariant
            from <= end <= chars@.len(),
            trim_end(chars@.skip(from as int)) == trim_end(
                chars@.subrange(from as int, end as int),
            ),
        decreases end,
    {
        assert(chars@.subrange(from as int, end as int).drop_last() == chars@.subrange(
            from as int,
            end - 1,
        ));
        end = end - 1;
    }
    end
}

/// Removes trailing white space.
pub fn trim_text_end(text: &str) -> (res: String)
    ensures
        res@ == trim_end(text@),
{
    let chars = chars_of(text);
    assert(chars@.skip(0) == text@);
    let end = trimmed_end(&chars, 0);
    text_of(&chars, 0, end)
}

/// Removes the white space on either side.
pub fn trim_text(text: &str) -> (res: String)
    ensures
        res@ == trim(text@),
{
    let chars = chars_of(text);
    let mut start: usize = 0;
    assert(chars@.skip(0) == text@);
    while start < chars.len() && is_white(chars[start])
        invariant
            start <= chars@.len(),
            trim_start(text@) == trim_start(chars@.skip(start as int)),
        decreases chars@.len() - start,
    {
        assert(chars@.skip(start as int).drop_first() == chars@.skip(start + 1));
        start = start + 1;
    }
    assert(trim_start(text@) == chars@.skip(start as int));
    let end = trimmed_end(&chars, start);
    text_of(&chars, start, end)
}

/// Tells whether a text holds nothing but white space.
pub fn is_blank(text: &str) -> (res: bool)
    ensures
        res == (trim(text@).len() == 0),
{
    let trimmed = trim_text(text);
    trimmed.as_str().is_empty()
}

/// Removes the characters `c` at the end of a text.
pub fn strip_text_end(text: &str, c: char) -> (res: String)
    ensures
        res@ == strip_end(text@, c),
{
    let chars = chars_of(text);
    let mut end: usize = chars.len();
    assert(chars@.take(end as int) == text@);
    while end > 0 && chars[end - 1] == c
        invariant
            end <= chars@.len(),
            strip_end(text@, c) == strip_end(chars@.take(end as int), c),
        decreases end,
    {
        assert(chars@.take(end as int).drop_last() == chars@.take(end - 1));
        end = end - 1;
    }
    assert(chars@.subrange(0, end as int) == chars@.take(end as int));
    text_of(&chars, 0, end)
}

/// Removes the characters `c` at the start of a text.
pub fn strip_text_start(text: &str, c: char) -> (res: String)
    ensures
        res@ == strip_start(text@, c),
{
    let chars = chars_of(text);
    let mut start: usize = 0;
    assert(chars@.skip(0) == text@);
    while start < chars.len() && chars[start] == c
        invariant
            start <= chars@.len(),
            strip_start(text@, c) == strip_start(chars@.skip(start as int), c),
        decreases chars@.len() - start,
    {
        assert(chars@.skip(start as int).drop_first() == chars@.skip(start + 1));
        start = start + 1;
    }
    assert(chars@.subrange(start as int, chars@.len() as int) == chars@.skip(start as int));
    text_of(&chars, start, chars.len())
}

/// Splits a text at every `sep`.
pub fn split_text(text: &str, sep: char) -> (res: Vec<String>)
    ensures
        views(res@) == split_on(text@, sep),
{
    let chars = chars_of(text);
    let mut res: Vec<String> = Vec::new();
    let mut piece = String::new();
    let mut i: usize = 0;
    assert(views(res@).push(piece@) == split_on(text@.take(0), sep));
    while i < chars.len()
        invariant
            i <= chars@.len(),
            chars@ == text@,
            views(res@).push(piece@) == split_on(text@.take(i as int), sep),
        decreases chars@.len() - i,
    {
        let c = chars[i];
        let ghost before = views(res@);
        let ghost held = piece@;
        assert(before.push(held).drop_last() == before);
        assert(text@.take(i + 1).drop_last() == text@.take(i as int));
        if c == sep {
            res.push(piece);
            piece = String::new();
            assert(views(res@) == before.push(held));
        } else {
            piece.push(c);
        }
        i = i + 1;
    }
    assert(text@.take(i as int) == text@);
    let ghost before = views(res@);
    res.push(piece);
    assert(views(res@) == before.push(piece@));
    res
}

/// Joins texts, with `sep` between each two.
pub fn join_texts(parts: &Vec<String>, sep: &str) -> (res: String)
    ensures
        res@ == join(views(parts@), sep@),
{
    let mut res = String::new();
    let mut i: usize = 0;
    while i < parts.len()
        invariant
            i <= parts@.len(),
            res@ == join(views(parts@).take(i as int), sep@),
        decreases parts@.len() - i,
    {
        let ghost done = views(parts@).take(i + 1);
        assert(done.drop_last() == views(parts@).take(i as int));
        if i > 0 {
            res.append(sep);
        }
        res.append(parts[i].as_str());
        i = i + 1;
        assert(res@ == join(done, sep@));
    }
    assert(views(parts@).take(i as int) == views(parts@));
    res
}

/// Splits a text into its lines.
pub fn text_lines(text: &str) -> (res: Vec<String>)
    ensures
        views(res@) == lines(text@),
{
    let parts = split_text(text, '\n');
    let ghost pieces = split_on(text@, '\n');
    proof {
        lemma_split_nonempty(text@, '\n');
        assert(pieces.len() == parts@.len());
    }
    let mut res: Vec<String> = Vec::new();
    let mut i: usize = 0;
    let ghost ended = pieces.drop_last().map_values(|p: Seq<char>| chomp(p));
    while i < parts.len() - 1
        invariant
            i <= parts@.len() - 1,
            pieces == views(parts@),
            ended == pieces.drop_last().map_values(|p: Seq<char>| chomp(p)),
            views(res@) == ended.take(i as int),
        decreases parts@.len() - i,
    {
        let chars = chars_of(parts[i].as_str());
        let ghost before = views(res@);
        assert(pieces[i as int] == chars@);
        let n = chars.len();
        let line = if n > 0 && chars[n - 1] == '\r' {
            assert(chars@.subrange(0, n - 1) == chars@.drop_last());
            text_of(&chars, 0, n - 1)
        } else {
            assert(chars@.subrange(0, n as int) == chars@);
            text_of(&chars, 0, n)
        };
        let ghost held = line@;
        res.push(line);
        assert(views(res@) == before.push(held));
        i = i + 1;
        assert(ended.take(i as int) == ended.take(i - 1).push(ended[i - 1]));
    }
    assert(ended.take(i as int) == ended);
    let last = parts[i].clone();
    assert(pieces.last() == last@);
    if !last.as_str().is_empty() {
        let ghost held = last@;
        res.push(last);
        assert(views(res@) == ended.push(held));
    }
    res
}

/// Splitting yields at least one piece.
pub proof fn lemma_split_nonempty(s: Seq<char>, sep: char)
    ensures
        split_on(s, sep).len() > 0,
    decreases s.len(),
{
    if s.len() > 0 {
        lemma_split_nonempty(s.drop_last(), sep);
    }
}

/// Tells whether `c` occurs in a text.
pub fn has_char(text: &str, c: char) -> (res: bool)
    ensures
        res == text@.contains(c),
{
    let chars = chars_of(text);
    let mut i: usize = 0;
    while i < chars.len()
        invariant
            i <= chars@.len(),
            chars@ == text@,
            forall|j: int| 0 <= j < i ==> chars@[j] != c,
        decreases chars@.len() - i,
    {
        if chars[i] == c {
            return true;
        }
        i = i + 1;
    }
    false
}

/// Tells whether `pat` stands in `chars` at position `at`.
pub fn stands_at(chars: &Vec<char>, at: usize, pat: &Vec<char>) -> (res: bool)
    ensures
        res == has_at(chars@, at as int, pat@),
{
    if at > chars.len() || chars.len() - at < pat.len() {
        return false;
    }
    let mut i: usize = 0;
    let n = chars.len();
    while i < pat.len()
        invariant
            i <= pat@.len(),
            at + pat@.len() <= chars@.len() == n,
            forall|j: int| 0 <= j < i ==> chars@[at + j] == pat@[j],
        decreases pat@.len() - i,
    {
        if chars[at + i] != pat[i] {
            assert(chars@.subrange(at as int, at + pat@.len())[i as int] != pat@[i as int]);
            return false;
        }
        i = i + 1;
    }
    assert(chars@.subrange(at as int, at + pat@.len()) == pat@);
    true
}

/// Finds the first `pat` in a text and returns what stands on either side of it.
pub fn split_text_first(text: &str, pat: &str) -> (res: Option<(String, String)>)
    ensures
        match res {
            Some(p) => split_first(text@, pat@) == Some((p.0@, p.1@)),
            None => split_first(text@, pat@) is None,
        },
{
    let chars = chars_of(text);
    let sought = chars_of(pat);
    let mut i: usize = 0;
    while i < chars.len()
        invariant
            i <= chars@.len(),
            chars@ == text@,
            sought@ == pat@,
            first_at(text@, pat@, 0) == first_at(text@, pat@, i as int),
        decreases chars@.len() - i,
    {
        if stands_at(&chars, i, &sought) {
            assert(text@.subrange(0, i as int) == text@.take(i as int));
            assert(text@.subrange(i + pat@.len(), text@.len() as int) == text@.skip(
                i + pat@.len(),
            ));
            return Some((text_of(&chars, 0, i), text_of(&chars, i + sought.len(), chars.len())));
        }
        i = i + 1;
    }
    if stands_at(&chars, i, &sought) {
        assert(text@.subrange(0, i as int) == text@.take(i as int));
        assert(text@.subrange(i as int, text@.len() as int) == text@.skip(i + pat@.len()));
        return Some((text_of(&chars, 0, i), text_of(&chars, i, chars.len())));
    }
    assert(first_at(text@, pat@, text@.len() as int + 1) is None);
    None
}

/// Finds the last `pat` in a text and returns what stands on either side of it.
pub fn split_text_last(text: &str, pat: &str) -> (res: Option<(String, String)>)
    ensures
        match res {
            Some(p) => split_last(text@, pat@) == Some((p.0@, p.1@)),
            None => split_last(text@, pat@) is None,
        },
{
    let chars = chars_of(text);
    let sought = chars_of(pat);
    if chars.len() < sought.len() {
        proof {
            lemma_last_at_short(text@, pat@, text@.len() as int + 1);
        }
        return None;
    }
    let n = chars.len();
    let mut i: usize = n - sought.len();
    proof {
        lemma_last_at_end(text@, pat@, text@.len() as int + 1);
    }
    while i > 0
        invariant
            i + pat@.len() <= chars@.len() == n,
            chars@ == text@,
            sought@ == pat@,
            last_at(text@, pat@, text@.len() as int + 1) == last_at(text@, pat@, i + 1),
        decreases i,
    {
        if stands_at(&chars, i, &sought) {
            assert(text@.subrange(0, i as int) == text@.take(i as int));
            assert(text@.subrange(i + pat@.len(), text@.len() as int) == text@.skip(
                i + pat@.len(),
            ));
            return Some((text_of(&chars, 0, i), text_of(&chars, i + sought.len(), chars.len())));
        }
        i = i - 1;
    }
    if stands_at(&chars, 0, &sought) {
        assert(text@.subrange(0, 0) == text@.take(0));
        assert(text@.subrange(pat@.len() as int, text@.len() as int) == text@.skip(
            pat@.len() as int,
        ));
        return Some((text_of(&chars, 0, 0), text_of(&chars, sought.len(), chars.len())));
    }
    assert(last_at(text@, pat@, 1) == last_at(text@, pat@, 0));
    None
}

proof fn lemma_last_at_short(s: Seq<char>, pat: Seq<char>, end: int)
    requires
        s.len() < pat.len(),
    ensures
        last_at(s, pat, end) is None,
    decreases end,
{
    if end > 0 {
        lemma_last_at_short(s, pat, end - 1);
    }
}

proof fn lemma_last_at_end(s: Seq<char>, pat: Seq<char>, end: int)
    requires
        pat.len() <= s.len(),
        s.len() - pat.len() + 1 <= end <= s.len() + 1,
    ensures
        last_at(s, pat, end) == last_at(s, pat, s.len() - pat.len() + 1),
    decreases end,
{
    if end > s.len() - pat.len() + 1 {
        lemma_last_at_end(s, pat, end - 1);
    }
}

/// Replaces every `from` in a text by `to`.
pub fn replace_char(text: &str, from: char, to: &str) -> (res: String)
    ensures
        res@ == replaced(text@, from, to@),
{
    let chars = chars_of(text);
    let mut res = String::new();
    let mut i: usize = 0;
    while i < chars.len()
        invariant
            i <= chars@.len(),
            chars@ == text@,
            res@ == replaced(text@.take(i as int), from, to@),
        decreases chars@.len() - i,
    {
        let c = chars[i];
        assert(text@.take(i + 1).drop_last() == text@.take(i as int));
        if c == from {
            res.append(to);
        } else {
            res.push(c);
        }
        i = i + 1;
    }
    assert(text@.take(i as int) == text@);
    res
}

/// Writes a number in decimal notation.
pub fn decimal_text(n: u64) -> (res: String)
    ensures
        res@ == decimal(n as nat),
    decreases n,
{
    if n < 10 {
        let mut res = String::new();
        res.push((48u8 + n as u8) as char);
        res
    } else {
        let mut res = decimal_text(n / 10);
        res.push((48u8 + (n % 10) as u8) as char);
        res
    }
}

/// Joins lines, each ended by a line feed.
pub fn terminate_lines(all: &Vec<String>) -> (res: String)
    ensures
        res@ == terminated(views(all@)),
{
    let mut res = String::new();
    let mut i: usize = 0;
    while i < all.len()
        invariant
            i <= all@.len(),
            res@ == terminated(views(all@).take(i as int)),
        decreases all@.len() - i,
    {
        let ghost done = views(all@).take(i + 1);
        assert(done.drop_last() == views(all@).take(i as int));
        assert(done.last() == all@[i as int]@);
        res.append(all[i].as_str());
        res.append("\n");
        i = i + 1;
    }
    assert(views(all@).take(i as int) == views(all@));
    res
}

/// A text without white space at either end is its own trimmed form.
pub proof fn lemma_trimmed(s: Seq<char>)
    requires
        trimmed(s),
    ensures
        trim(s) == s,
{
}

/// Removing trailing white space leaves a prefix that does not end in white space.
pub proof fn lemma_trim_end_tail(s: Seq<char>)
    ensures
        trim_end(s).len() <= s.len(),
        trim_end(s) == s.take(trim_end(s).len() as int),
        trim_end(s).len() > 0 ==> !white(trim_end(s).last()),
        forall|i: int| trim_end(s).len() <= i < s.len() ==> white(#[trigger] s[i]),
    decreases s.len(),
{
    if s.len() > 0 && white(s.last()) {
        lemma_trim_end_tail(s.drop_last());
        let n = trim_end(s).len() as int;
        assert(s.drop_last().take(n) == s.take(n));
        assert forall|i: int| n <= i < s.len() implies white(#[trigger] s[i]) by {
            if i < s.len() - 1 {
                assert(s.drop_last()[i] == s[i]);
            }
        }
    } else {
        assert(s.take(s.len() as int) == s);
    }
}

/// No piece holds the separator, nor what the text does not hold.
pub proof fn lemma_split_lacks(s: Seq<char>, sep: char, c: char)
    requires
        c == sep || !s.contains(c),
    ensures
        forall|i: int|
            0 <= i < split_on(s, sep).len() ==> !(#[trigger] split_on(s, sep)[i]).contains(c),
    decreases s.len(),
{
    if s.len() > 0 {
        let init = s.drop_last();
        if c != sep {
            assert forall|x: int| 0 <= x < init.len() implies init[x] != c by {
                assert(s[x] != c);
            }
            assert(s[s.len() - 1] != c);
        }
        lemma_split_lacks(init, sep, c);
        lemma_split_nonempty(init, sep);
        let before = split_on(init, sep);
        let after = split_on(s, sep);
        assert forall|i: int| 0 <= i < after.len() implies !(#[trigger] after[i]).contains(c) by {
            if i < before.len() - 1 {
                assert(after[i] == before[i]);
            } else if i == before.len() - 1 {
                assert(!before[i].contains(c));
                if s.last() == sep {
                    assert(after[i] == before[i]);
                } else {
                    assert(after[i] == before[i].push(s.last()));
                    assert forall|x: int| 0 <= x < after[i].len() implies after[i][x] != c by {
                        if x < before[i].len() {
                            assert(before[i].contains(before[i][x]));
                        }
                    }
                }
            }
        }
    }
}

/// Text without the separator extends the last piece.
pub proof fn lemma_split_append(a: Seq<char>, more: Seq<char>, sep: char)
    requires
        !more.contains(sep),
    ensures
        split_on(a + more, sep) == split_on(a, sep).drop_last().push(
            split_on(a, sep).last() + more,
        ),
    decreases more.len(),
{
    lemma_split_nonempty(a, sep);
    let parts = split_on(a, sep);
    if more.len() == 0 {
        assert(a + more == a);
        assert(parts.last() + more == parts.last());
        assert(parts.drop_last().push(parts.last()) == parts);
    } else {
        let init = more.drop_last();
        assert(!init.contains(sep)) by {
            if init.contains(sep) {
                let i = choose|i: int| 0 <= i < init.len() && init[i] == sep;
                assert(more[i] == sep);
            }
        }
        lemma_split_append(a, init, sep);
        assert((a + more).drop_last() == a + init);
        assert((a + more).last() == more.last());
        assert(more.last() != sep) by {
            assert(more[more.len() - 1] == more.last());
        }
        let before = split_on(a + init, sep);
        assert(before.drop_last() == parts.drop_last());
        assert(before.last().push(more.last()) == parts.last() + more);
    }
}

/// Splitting undoes joining when no piece holds the separator.
pub proof fn lemma_split_join(parts: Seq<Seq<char>>, sep: char)
    requires
        parts.len() > 0,
        forall|i: int| 0 <= i < parts.len() ==> !(#[trigger] parts[i]).contains(sep),
    ensures
        split_on(join(parts, seq![sep]), sep) == parts,
    decreases parts.len(),
{
    let empty = Seq::<char>::empty();
    if parts.len() == 1 {
        lemma_split_append(empty, parts[0], sep);
        assert(empty + parts[0] == parts[0]);
        assert(split_on(empty, sep).drop_last().push(parts[0]) == parts);
    } else {
        let init = parts.drop_last();
        assert forall|i: int| 0 <= i < init.len() implies !(#[trigger] init[i]).contains(sep) by {
            assert(init[i] == parts[i]);
        }
        lemma_split_join(init, sep);
        let text = join(init, seq![sep]);
        let open = text + seq![sep];
        assert(open.drop_last() == text && open.last() == sep);
        assert(split_on(open, sep) == init.push(empty));
        assert(!parts[parts.len() - 1].contains(sep));
        lemma_split_append(open, parts.last(), sep);
        assert(init.push(empty).drop_last() == init);
        assert(empty + parts.last() == parts.last());
        assert(init.push(parts.last()) == parts);
    }
}

/// Reading lines undoes writing them when no line holds a line feed or ends in a
/// carriage return.
pub proof fn lemma_lines_terminated(all: Seq<Seq<char>>)
    requires
        forall|i: int|
            0 <= i < all.len() ==> !(#[trigger] all[i]).contains('\n') && chomp(all[i]) == all[i],
    ensures
        lines(terminated(all)) == all,
{
    lemma_split_terminated(all);
    let parts = split_on(terminated(all), '\n');
    assert(parts.drop_last() == all);
    assert(parts.drop_last().map_values(|p: Seq<char>| chomp(p)) == all);
}

proof fn lemma_split_terminated(all: Seq<Seq<char>>)
    requires
        forall|i: int| 0 <= i < all.len() ==> !(#[trigger] all[i]).contains('\n'),
    ensures
        split_on(terminated(all), '\n') == all.push(Seq::<char>::empty()),
    decreases all.len(),
{
    let empty = Seq::<char>::empty();
    if all.len() == 0 {
        assert(split_on(empty, '\n') == all.push(empty));
    } else {
        let init = all.drop_last();
        assert forall|i: int| 0 <= i < init.len() implies !(#[trigger] init[i]).contains('\n') by {
            assert(init[i] == all[i]);
        }
        lemma_split_terminated(init);
        let text = terminated(init);
        assert(!all[all.len() - 1].contains('\n'));
        lemma_split_append(text, all.last(), '\n');
        assert(init.push(empty).drop_last() == init);
        assert(empty + all.last() == all.last());
        assert(init.push(all.last()) == all);
        reveal_strlit("\n");
        let whole = terminated(all);
        assert(whole.drop_last() == text + all.last());
        assert(whole.last() == '\n');
    }
}

/// A position at which `pat` stands, and after which it does not, is the last one.
pub proof fn lemma_last_at(s: Seq<char>, pat: Seq<char>, end: int, i: int)
    requires
        0 <= i < end,
        has_at(s, i, pat),
        forall|j: int| i < j < end ==> !has_at(s, j, pat),
    ensures
        last_at(s, pat, end) == Some(i),
    decreases end,
{
    if i < end - 1 {
        assert(!has_at(s, end - 1, pat));
        lemma_last_at(s, pat, end - 1, i);
    }
}

/// Where `pat` stands nowhere, there is no last position.
pub proof fn lemma_last_at_none(s: Seq<char>, pat: Seq<char>, end: int)
    requires
        forall|j: int| 0 <= j < end ==> !has_at(s, j, pat),
    ensures
        last_at(s, pat, end) is None,
    decreases end,
{
    if end > 0 {
        assert(!has_at(s, end - 1, pat));
        lemma_last_at_none(s, pat, end - 1);
    }
}

/// A position at which `pat` stands, and before which it does not, is the first one.
pub proof fn lemma_first_at(s: Seq<char>, pat: Seq<char>, from: int, i: int)
    requires
        0 <= from <= i,
        has_at(s, i, pat),
        forall|j: int| from <= j < i ==> !has_at(s, j, pat),
    ensures
        first_at(s, pat, from) == Some(i),
    decreases i - from,
{
    if from < i {
        assert(!has_at(s, from, pat));
        lemma_first_at(s, pat, from + 1, i);
    }
}

/// Where `pat` stands nowhere, there is no first position.
pub proof fn lemma_first_at_none(s: Seq<char>, pat: Seq<char>, from: int)
    requires
        forall|j: int| from <= j ==> !has_at(s, j, pat),
    ensures
        first_at(s, pat, from) is None,
    decreases s.len() + 1 - from,
{
    if from <= s.len() {
        assert(!has_at(s, from, pat));
        lemma_first_at_none(s, pat, from + 1);
    }
}

/// Replacing goes piece by piece.
pub proof fn lemma_replaced_append(a: Seq<char>, b: Seq<char>, from: char, to: Seq<char>)
    ensures
        replaced(a + b, from, to) == replaced(a, from, to) + replaced(b, from, to),
    decreases b.len(),
{
    if b.len() == 0 {
        assert(a + b =~= a);
        assert(replaced(a, from, to) + b =~= replaced(a, from, to));
    } else {
        let init = b.drop_last();
        lemma_replaced_append(a, init, from, to);
        assert((a + b).drop_last() =~= a + init);
        assert((a + b).last() == b.last());
        let head = replaced(a, from, to);
        let tail = replaced(init, from, to);
        assert(head + (tail + to) =~= head + tail + to);
        assert(head + tail.push(b.last()) =~= (head + tail).push(b.last()));
    }
}

/// A single character is replaced or stays.
pub proof fn lemma_replaced_char(c: char, from: char, to: Seq<char>)
    ensures
        replaced(seq![c], from, to) == (if c == from {
            to
        } else {
            seq![c]
        }),
{
    let one = seq![c];
    assert(one.drop_last() =~= Seq::<char>::empty());
    assert(replaced(one.drop_last(), from, to) =~= Seq::<char>::empty());
    assert(Seq::<char>::empty() + to =~= to);
    assert(Seq::<char>::empty().push(c) =~= one);
}

/// Nothing is replaced where the character does not occur.
pub proof fn lemma_replaced_none(s: Seq<char>, from: char, to: Seq<char>)
    requires
        !s.contains(from),
    ensures
        replaced(s, from, to) == s,
    decreases s.len(),
{
    if s.len() > 0 {
        let init = s.drop_last();
        assert(s[s.len() - 1] != from);
        assert forall|i: int| 0 <= i < init.len() implies init[i] != from by {
            assert(s[i] != from);
        }
        lemma_replaced_none(init, from, to);
        assert(init.push(s.last()) =~= s);
    }
}

/// Replacing the separator of joined pieces joins them with another.
pub proof fn lemma_replaced_join(parts: Seq<Seq<char>>, from: char, to: Seq<char>)
    requires
        forall|i: int| 0 <= i < parts.len() ==> !(#[trigger] parts[i]).contains(from),
    ensures
        replaced(join(parts, seq![from]), from, to) == join(parts, to),
    decreases parts.len(),
{
    if parts.len() > 0 {
        assert(!parts[parts.len() - 1].contains(from));
        lemma_replaced_none(parts.last(), from, to);
    }
    if parts.len() > 1 {
        let init = parts.drop_last();
        assert forall|i: int| 0 <= i < init.len() implies !(#[trigger] init[i]).contains(from) by {
            assert(init[i] == parts[i]);
        }
        lemma_replaced_join(init, from, to);
        let head = join(init, seq![from]);
        lemma_replaced_append(head + seq![from], parts.last(), from, to);
        lemma_replaced_append(head, seq![from], from, to);
        lemma_replaced_char(from, from, to);
    }
}

/// Replacing adds no character that the replacement does not hold.
pub proof fn lemma_replaced_lacks(s: Seq<char>, from: char, to: Seq<char>, c: char)
    requires
        !s.contains(c),
        !to.contains(c),
    ensures
        !replaced(s, from, to).contains(c),
    decreases s.len(),
{
    if s.len() > 0 {
        let init = s.drop_last();
        assert(s[s.len() - 1] != c);
        assert forall|i: int| 0 <= i < init.len() implies init[i] != c by {
            assert(s[i] != c);
        }
        lemma_replaced_lacks(init, from, to, c);
        let before = replaced(init, from, to);
        let after = replaced(s, from, to);
        assert forall|i: int| 0 <= i < after.len() implies after[i] != c by {
            if i < before.len() {
                assert(before.contains(before[i]));
            } else if s.last() == from {
                assert(to.contains(to[i - before.len()]));
            }
        }
    }
}

/// The characters are the same, or the same letter from `A` to `Z` in different case.
pub open spec fn same_letter(a: char, b: char) -> bool {
    ||| a == b
    ||| 'A' <= a <= 'Z' && b as u32 == a as u32 + 32
    ||| 'A' <= b <= 'Z' && a as u32 == b as u32 + 32
}

/// The texts differ in nothing but the case of letters from `A` to `Z`.
pub open spec fn same_letters(a: Seq<char>, b: Seq<char>) -> bool {
    a.len() == b.len() && forall|i: int| 0 <= i < a.len() ==> same_letter(#[trigger] a[i], b[i])
}

/// Two texts are equal in lower case just if they differ in the case of letters alone.
pub proof fn law_case_is_ignored(a: Seq<char>, b: Seq<char>)
    ensures
        ascii_lower(a) == ascii_lower(b) <==> same_letters(a, b),
{
    assert forall|i: int| 0 <= i < a.len() && i < b.len() implies (#[trigger] lower_char(a[i])
        == lower_char(b[i]) <==> same_letter(a[i], b[i])) by {}
    if ascii_lower(a) == ascii_lower(b) {
        assert(ascii_lower(a).len() == a.len());
        assert(ascii_lower(b).len() == b.len());
        assert forall|i: int| 0 <= i < a.len() implies same_letter(#[trigger] a[i], b[i]) by {
            assert(ascii_lower(a)[i] == lower_char(a[i]));
            assert(ascii_lower(b)[i] == lower_char(b[i]));
        }
    }
    if same_letters(a, b) {
        assert forall|i: int| 0 <= i < a.len() implies ascii_lower(a)[i] == ascii_lower(b)[i] by {
            assert(same_letter(a[i], b[i]));
            assert(lower_char(a[i]) == lower_char(b[i]));
        }
        assert(ascii_lower(a) =~= ascii_lower(b));
    }
}

/// White space is what Unicode gives the property of that name.
pub proof fn law_white_space(c: char)
    ensures
        white(c) <==> seq![
            '\t',
            '\n',
            '\u{b}',
            '\u{c}',
            '\r',
            ' ',
            '\u{85}',
            '\u{a0}',
            '\u{1680}',
            '\u{2000}',
            '\u{2001}',
            '\u{2002}',
            '\u{2003}',
            '\u{2004}',
            '\u{2005}',
            '\u{2006}',
            '\u{2007}',
            '\u{2008}',
            '\u{2009}',
            '\u{200a}',
            '\u{2028}',
            '\u{2029}',
            '\u{202f}',
            '\u{205f}',
            '\u{3000}',
        ].contains(c),
{
    let all = seq![
        '\t',
        '\n',
        '\u{b}',
        '\u{c}',
        '\r',
        ' ',
        '\u{85}',
        '\u{a0}',
        '\u{1680}',
        '\u{2000}',
        '\u{2001}',
        '\u{2002}',
        '\u{2003}',
        '\u{2004}',
        '\u{2005}',
        '\u{2006}',
        '\u{2007}',
        '\u{2008}',
        '\u{2009}',
        '\u{200a}',
        '\u{2028}',
        '\u{2029}',
        '\u{202f}',
        '\u{205f}',
        '\u{3000}',
    ];
    assert(forall|i: int| 0 <= i < all.len() ==> white(#[trigger] all[i]));
    if white(c) {
        assert(c == all[0] || c == all[1] || c == all[2] || c == all[3] || c == all[4] || c
            == all[5] || c == all[6] || c == all[7] || c == all[8] || c == all[9] || c == all[10]
            || c == all[11] || c == all[12] || c == all[13] || c == all[14] || c == all[15] || c
            == all[16] || c == all[17] || c == all[18] || c == all[19] || c == all[20] || c
            == all[21] || c == all[22] || c == all[23] || c == all[24]);
    }
}

/// Trimming takes away the white space on both sides, and nothing else: what is left
/// stands between the places that are returned.
pub proof fn law_trim_takes_the_white_space(s: Seq<char>) -> (res: (int, int))
    ensures
        0 <= res.0 <= res.1 <= s.len(),
        trim(s) == s.subrange(res.0, res.1),
        forall|i: int| 0 <= i < res.0 ==> white(#[trigger] s[i]),
        forall|i: int| res.1 <= i < s.len() ==> white(#[trigger] s[i]),
        trim(s).len() > 0 ==> !white(trim(s)[0]) && !white(trim(s).last()),
    decreases s.len(),
{
    if s.len() > 0 && white(s[0]) {
        let rest = s.drop_first();
        let (a, b) = law_trim_takes_the_white_space(rest);
        assert(s.subrange(a + 1, b + 1) =~= rest.subrange(a, b));
        assert forall|i: int| 0 <= i < a + 1 implies white(#[trigger] s[i]) by {
            if i > 0 {
                assert(rest[i - 1] == s[i]);
            }
        }
        assert forall|i: int| b + 1 <= i < s.len() implies white(#[trigger] s[i]) by {
            assert(rest[i - 1] == s[i]);
        }
        (a + 1, b + 1)
    } else {
        lemma_trim_end_tail(s);
        let n = trim_end(s).len() as int;
        assert(s.take(n) =~= s.subrange(0, n));
        (0, n)
    }
}

/// Trimming at the end takes away the white space there, and nothing else.
pub proof fn law_trim_end_takes_the_white_space(s: Seq<char>)
    ensures
        trim_end(s).len() <= s.len(),
        trim_end(s) == s.take(trim_end(s).len() as int),
        forall|i: int| trim_end(s).len() <= i < s.len() ==> white(#[trigger] s[i]),
        trim_end(s).len() > 0 ==> !white(trim_end(s).last()),
{
    lemma_trim_end_tail(s);
}

/// Stripping takes away a character at the end as often as it stands there.
pub proof fn law_strip_end(s: Seq<char>, c: char)
    ensures
        strip_end(s, c).len() <= s.len(),
        strip_end(s, c) == s.take(strip_end(s, c).len() as int),
        forall|i: int| strip_end(s, c).len() <= i < s.len() ==> #[trigger] s[i] == c,
        strip_end(s, c).len() > 0 ==> strip_end(s, c).last() != c,
    decreases s.len(),
{
    if s.len() > 0 && s.last() == c {
        law_strip_end(s.drop_last(), c);
        let n = strip_end(s, c).len() as int;
        assert(s.drop_last().take(n) =~= s.take(n));
        assert forall|i: int| n <= i < s.len() implies #[trigger] s[i] == c by {
            if i < s.len() - 1 {
                assert(s.drop_last()[i] == s[i]);
            }
        }
    } else {
        assert(s.take(s.len() as int) =~= s);
    }
}

/// Stripping takes away a character at the start as often as it stands there.
pub proof fn law_strip_start(s: Seq<char>, c: char)
    ensures
        strip_start(s, c).len() <= s.len(),
        strip_start(s, c) == s.skip(s.len() - strip_start(s, c).len()),
        forall|i: int| 0 <= i < s.len() - strip_start(s, c).len() ==> #[trigger] s[i] == c,
        strip_start(s, c).len() > 0 ==> strip_start(s, c)[0] != c,
    decreases s.len(),
{
    if s.len() > 0 && s[0] == c {
        let rest = s.drop_first();
        law_strip_start(rest, c);
        let n = s.len() - strip_start(s, c).len();
        assert(rest.skip(n - 1) =~= s.skip(n));
        assert forall|i: int| 0 <= i < n implies #[trigger] s[i] == c by {
            if i > 0 {
                assert(rest[i - 1] == s[i]);
            }
        }
    } else {
        assert(s.skip(0) =~= s);
    }
}

/// Splitting takes a text apart at each place where the character stands: the pieces do
/// not hold the character, and put together again with it they are the text.
pub proof fn law_pieces_make_up_the_text(s: Seq<char>, sep: char)
    ensures
        split_on(s, sep).len() > 0,
        join(split_on(s, sep), seq![sep]) == s,
        forall|i: int|
            0 <= i < split_on(s, sep).len() ==> !(#[trigger] split_on(s, sep)[i]).contains(sep),
    decreases s.len(),
{
    lemma_split_lacks(s, sep, sep);
    if s.len() > 0 {
        let init = s.drop_last();
        law_pieces_make_up_the_text(init, sep);
        let (all, before) = (split_on(s, sep), split_on(init, sep));
        assert(init.push(s.last()) =~= s);
        if s.last() == sep {
            assert(all.drop_last() =~= before);
            assert(join(all, seq![sep]) =~= init + seq![sep] + Seq::<char>::empty());
        } else {
            assert(all.drop_last() =~= before.drop_last());
            if before.len() == 1 {
                assert(join(all, seq![sep]) =~= init.push(s.last()));
            } else {
                assert(join(all, seq![sep]) =~= join(before, seq![sep]).push(s.last()));
            }
        }
    } else {
        assert(join(split_on(s, sep), seq![sep]) =~= s);
    }
}

/// Splitting at the last place parts the text there: what follows does not hold the
/// character, and the three parts are the text.
pub proof fn law_last_part(before: Seq<char>, c: char, after: Seq<char>)
    requires
        !after.contains(c),
    ensures
        split_last(before + seq![c] + after, seq![c]) == Some((before, after)),
        split_last(after, seq![c]) is None,
{
    let s = before + seq![c] + after;
    let n = before.len() as int;
    assert(s.subrange(n, n + 1) =~= seq![c]);
    assert forall|j: int| n < j < s.len() + 1 implies !has_at(s, j, seq![c]) by {
        if has_at(s, j, seq![c]) {
            assert(s.subrange(j, j + 1)[0] == s[j]);
            assert(after[j - n - 1] == c);
        }
    }
    lemma_last_at(s, seq![c], s.len() as int + 1, n);
    assert(s.take(n) =~= before);
    assert(s.skip(n + 1) =~= after);
    assert forall|j: int| 0 <= j < after.len() + 1 implies !has_at(after, j, seq![c]) by {
        if has_at(after, j, seq![c]) {
            assert(after.subrange(j, j + 1)[0] == after[j]);
        }
    }
    lemma_last_at_none(after, seq![c], after.len() as int + 1);
}

/// Splitting at the first place parts the text there: what comes before does not hold the
/// character, and the three parts are the text.
pub proof fn law_first_part(before: Seq<char>, c: char, after: Seq<char>)
    requires
        !before.contains(c),
    ensures
        split_first(before + seq![c] + after, seq![c]) == Some((before, after)),
        split_first(before, seq![c]) is None,
{
    let s = before + seq![c] + after;
    let n = before.len() as int;
    assert(s.subrange(n, n + 1) =~= seq![c]);
    lemma_first_part(s, c, n, 0);
    assert(s.take(n) =~= before);
    assert(s.skip(n + 1) =~= after);
    assert forall|j: int| 0 <= j implies !has_at(before, j, seq![c]) by {
        if has_at(before, j, seq![c]) {
            assert(before.subrange(j, j + 1)[0] == before[j]);
        }
    }
    lemma_first_at_none(before, seq![c], 0);
}

proof fn lemma_first_part(s: Seq<char>, c: char, n: int, i: int)
    requires
        0 <= i <= n < s.len(),
        s.subrange(n, n + 1) == seq![c],
        !s.take(n).contains(c),
    ensures
        first_at(s, seq![c], i) == Some(n),
    decreases n - i,
{
    if i < n {
        if has_at(s, i, seq![c]) {
            assert(s.subrange(i, i + 1)[0] == s[i]);
            assert(s.take(n)[i] == c);
        }
        lemma_first_part(s, c, n, i + 1);
    }
}

/// Replacing works on each character by itself: `from` becomes `to`, and any other
/// character stays.
pub proof fn law_replacing_goes_by_characters(a: Seq<char>, b: Seq<char>, from: char, to: Seq<char>)
    ensures
        replaced(a + b, from, to) == replaced(a, from, to) + replaced(b, from, to),
        replaced(seq![from], from, to) == to,
        forall|c: char| c != from ==> #[trigger] replaced(seq![c], from, to) == seq![c],
        replaced(Seq::empty(), from, to) == Seq::<char>::empty(),
    decreases b.len(),
{
    let empty = Seq::<char>::empty();
    assert(replaced(empty, from, to) =~= empty);
    assert(seq![from].drop_last() =~= empty);
    assert(replaced(seq![from], from, to) =~= to);
    assert forall|c: char| c != from implies #[trigger] replaced(seq![c], from, to) == seq![c] by {
        assert(seq![c].drop_last() =~= empty);
        assert(replaced(seq![c], from, to) =~= seq![c]);
    }
    if b.len() > 0 {
        law_replacing_goes_by_characters(a, b.drop_last(), from, to);
        assert((a + b).drop_last() =~= a + b.drop_last());
        assert(replaced(a + b, from, to) =~= replaced(a, from, to) + replaced(b, from, to));
    } else {
        assert(a + b =~= a);
        assert(replaced(a, from, to) + empty =~= replaced(a, from, to));
    }
}

/// The number that digits denote.
pub open spec fn number_of(digits: Seq<char>) -> nat
    decreases digits.len(),
{
    if digits.len() == 0 {
        0
    } else {
        10 * number_of(digits.drop_last()) + (digits.last() as u32 - 0x30) as nat
    }
}

/// A number is written with digits that denote it, and with no zero in front.
pub proof fn law_digits_denote_the_number(n: nat)
    ensures
        number_of(decimal(n)) == n,
        forall|i: int| 0 <= i < decimal(n).len() ==> '0' <= #[trigger] decimal(n)[i] <= '9',
        decimal(n).len() > 0,
        n > 0 ==> decimal(n)[0] != '0',
    decreases n,
{
    if n < 10 {
        assert(decimal(n).drop_last() =~= Seq::<char>::empty());
        assert(number_of(Seq::<char>::empty()) == 0);
    } else {
        law_digits_denote_the_number(n / 10);
        assert(decimal(n).drop_last() =~= decimal(n / 10));
    }
}

/// A line ends at a line feed, with or without a carriage return before it. The last line
/// needs no end.
pub proof fn law_lines(line: Seq<char>, rest: Seq<char>)
    requires
        !line.contains('\n'),
        line.len() > 0 ==> line.last() != '\r',
    ensures
        lines(line + seq!['\n'] + rest) == seq![line] + lines(rest),
        lines(line + seq!['\r', '\n'] + rest) == seq![line] + lines(rest),
        line.len() > 0 ==> lines(line) == seq![line],
        lines(Seq::empty()) == Seq::<Seq<char>>::empty(),
{
    let empty = Seq::<char>::empty();
    assert(split_on(empty, '\n') =~= seq![empty]);
    assert(lines(empty) =~= Seq::<Seq<char>>::empty());
    lemma_one_line(line);
    assert(line.len() > 0 ==> lines(line) =~= seq![line]);
    lemma_line_and_rest(line, line, rest);
    let back = line.push('\r');
    assert(!back.contains('\n')) by {
        assert forall|i: int| 0 <= i < back.len() implies back[i] != '\n' by {
            if i < line.len() {
                assert(line.contains(line[i]));
            }
        }
    }
    assert(back.drop_last() =~= line);
    lemma_line_and_rest(back, line, rest);
    assert(line + seq!['\r', '\n'] + rest =~= back + seq!['\n'] + rest);
}

proof fn lemma_one_line(line: Seq<char>)
    requires
        !line.contains('\n'),
    ensures
        split_on(line, '\n') == seq![line],
{
    let empty = Seq::<char>::empty();
    lemma_split_append(empty, line, '\n');
    assert(empty + line =~= line);
    assert(split_on(line, '\n') =~= seq![line]);
}

proof fn lemma_line_and_rest(raw: Seq<char>, line: Seq<char>, rest: Seq<char>)
    requires
        !raw.contains('\n'),
        chomp(raw) == line,
    ensures
        lines(raw + seq!['\n'] + rest) == seq![line] + lines(rest),
{
    let whole = raw + seq!['\n'] + rest;
    lemma_split_front(raw, rest, '\n');
    lemma_split_nonempty(rest, '\n');
    let (all, later) = (split_on(whole, '\n'), split_on(rest, '\n'));
    assert(all.last() == later.last());
    assert(all.drop_last() =~= seq![raw] + later.drop_last());
    assert(lines(whole) =~= seq![line] + lines(rest));
}

/// What stands before the first separator is the first piece.
proof fn lemma_split_front(piece: Seq<char>, rest: Seq<char>, sep: char)
    requires
        !piece.contains(sep),
    ensures
        split_on(piece + seq![sep] + rest, sep) == seq![piece] + split_on(rest, sep),
    decreases rest.len(),
{
    let whole = piece + seq![sep] + rest;
    let empty = Seq::<char>::empty();
    if rest.len() == 0 {
        lemma_split_append(empty, piece, sep);
        assert(empty + piece =~= piece);
        assert(whole.drop_last() =~= piece);
        assert(split_on(whole, sep) =~= seq![piece] + split_on(rest, sep));
    } else {
        let init = rest.drop_last();
        lemma_split_front(piece, init, sep);
        lemma_split_nonempty(init, sep);
        assert(whole.drop_last() =~= piece + seq![sep] + init);
        assert(split_on(whole, sep) =~= seq![piece] + split_on(rest, sep));
    }
}

/// White space around a text makes no difference once it is trimmed.
pub proof fn law_white_space_around_is_trimmed(before: Seq<char>, s: Seq<char>, after: Seq<char>)
    requires
        forall|i: int| 0 <= i < before.len() ==> white(#[trigger] before[i]),
        forall|i: int| 0 <= i < after.len() ==> white(#[trigger] after[i]),
    ensures
        trim(before + s + after) == trim(s),
    decreases before.len(),
{
    let whole = before + s + after;
    if before.len() > 0 {
        let rest = before.drop_first();
        assert forall|i: int| 0 <= i < rest.len() implies white(#[trigger] rest[i]) by {
            assert(rest[i] == before[i + 1]);
        }
        law_white_space_around_is_trimmed(rest, s, after);
        assert(whole[0] == before[0]);
        assert(whole.drop_first() =~= rest + s + after);
    } else {
        assert(whole =~= s + after);
        lemma_trim_tail(s, after);
    }
}

proof fn lemma_trim_tail(s: Seq<char>, after: Seq<char>)
    requires
        forall|i: int| 0 <= i < after.len() ==> white(#[trigger] after[i]),
    ensures
        trim(s + after) == trim(s),
    decreases s.len() + after.len(),
{
    if s.len() > 0 && white(s[0]) {
        lemma_trim_tail(s.drop_first(), after);
        assert((s + after)[0] == s[0]);
        assert((s + after).drop_first() =~= s.drop_first() + after);
    } else if s.len() > 0 {
        assert((s + after)[0] == s[0]);
        lemma_trim_end_more(s, after);
    } else if after.len() > 0 {
        let rest = after.drop_first();
        assert forall|i: int| 0 <= i < rest.len() implies white(#[trigger] rest[i]) by {
            assert(rest[i] == after[i + 1]);
        }
        lemma_trim_tail(s, rest);
        assert((s + after)[0] == after[0]);
        assert((s + after).drop_first() =~= s + rest);
    } else {
        assert(s + after =~= s);
    }
}

proof fn lemma_trim_end_more(s: Seq<char>, after: Seq<char>)
    requires
        forall|i: int| 0 <= i < after.len() ==> white(#[trigger] after[i]),
    ensures
        trim_end(s + after) == trim_end(s),
    decreases after.len(),
{
    if after.len() > 0 {
        let init = after.drop_last();
        assert forall|i: int| 0 <= i < init.len() implies white(#[trigger] init[i]) by {
            assert(init[i] == after[i]);
        }
        lemma_trim_end_more(s, init);
        assert((s + after).last() == after.last());
        assert(white(after[after.len() - 1]));
        assert((s + after).drop_last() =~= s + init);
    } else {
        assert(s + after =~= s);
    }
}

} // verus!
