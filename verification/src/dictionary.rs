//! The ordered union of two RIME dictionaries.
//!
//! A dictionary is a text file: an optional YAML header from `---` to `...`, then
//! the body. A body line may end in a tab and a weight. The union keeps the first
//! dictionary's header and one line for each record of either body; of records
//! that differ in their weight alone, it keeps the heavier one.
use vstd::hash_map::StringHashMap;
use vstd::prelude::*;
use vstd::utf8::{decode_utf8, encode_scalar, encode_utf8, valid_utf8};

use crate::error::{Fault, SyncError};
use crate::text::{
    chomp, has_at, last_at, law_last_part, lemma_lines_terminated, lemma_split_lacks,
    lemma_split_nonempty, lemma_trim_end_tail, lines, optional_views, same_text, split_last,
    split_on, split_text_last, terminate_lines, terminated, text_lines, trim, trim_end,
    trim_start, trim_text, views, white,
};

verus! {

/// What is to be done with one file on two sides.
#[derive(Clone, Copy, Debug, PartialEq, Eq, Structural)]
pub enum MergeAction {
    /// Neither side has the file.
    Nothing,
    /// Only the second side has it: copy it to the first.
    CopyToFirst,
    /// Only the first side has it: copy it to the second.
    CopyToSecond,
    /// Both have it: write the union to both.
    Union,
}

/// Decides what to do with a file, from the sides on which it exists.
pub fn merge_file(first: bool, second: bool) -> (res: MergeAction)
    ensures
        res == MergeAction::Nothing <==> !first && !second,
        res == MergeAction::CopyToFirst <==> !first && second,
        res == MergeAction::CopyToSecond <==> first && !second,
        res == MergeAction::Union <==> first && second,
{
    if first {
        if second {
            MergeAction::Union
        } else {
            MergeAction::CopyToSecond
        }
    } else if second {
        MergeAction::CopyToFirst
    } else {
        MergeAction::Nothing
    }
}

/// The content of a file without the UTF-8 byte order mark that it may start with.
pub open spec fn without_mark(bytes: Seq<u8>) -> Seq<u8> {
    if bytes.len() >= 3 && bytes[0] == 0xefu8 && bytes[1] == 0xbbu8 && bytes[2] == 0xbfu8 {
        bytes.skip(3)
    } else {
        bytes
    }
}

/// The text of the dictionary file called `name`, or why it has none.
pub open spec fn dictionary_text(bytes: Seq<u8>, name: Seq<char>) -> Result<Seq<char>, Fault> {
    if bytes.contains(0u8) {
        Err(Fault::BinaryDictionary(name))
    } else if !valid_utf8(without_mark(bytes)) {
        Err(Fault::DictionaryUtf8(name))
    } else {
        Ok(decode_utf8(without_mark(bytes)))
    }
}

/// Decodes the content of the dictionary file called `name`.
pub fn read_utf8(bytes: &Vec<u8>, name: &str) -> (res: Result<String, SyncError>)
    ensures
        match res {
            Ok(text) => dictionary_text(bytes@, name@) == Ok::<Seq<char>, Fault>(text@),
            Err(e) => dictionary_text(bytes@, name@) == Err::<Seq<char>, Fault>(e@),
        },
{
    let mut i: usize = 0;
    while i < bytes.len()
        invariant
            i <= bytes@.len(),
            forall|j: int| 0 <= j < i ==> bytes@[j] != 0u8,
        decreases bytes@.len() - i,
    {
        if bytes[i] == 0 {
            return Err(SyncError::BinaryDictionary(name.to_owned()));
        }
        i = i + 1;
    }
    let start: usize = if bytes.len() >= 3 && bytes[0] == 0xef && bytes[1] == 0xbb && bytes[2]
        == 0xbf {
        3
    } else {
        0
    };
    let mut body: Vec<u8> = Vec::new();
    let mut k: usize = start;
    while k < bytes.len()
        invariant
            start <= k <= bytes@.len(),
            body@ == bytes@.subrange(start as int, k as int),
        decreases bytes@.len() - k,
    {
        body.push(bytes[k]);
        k = k + 1;
        assert(bytes@.subrange(start as int, k as int) == bytes@.subrange(
            start as int,
            k - 1,
        ).push(bytes@[k - 1]));
    }
    assert(body@ == without_mark(bytes@));
    match String::from_utf8(body) {
        Ok(text) => Ok(text),
        Err(_) => Err(SyncError::DictionaryUtf8(name.to_owned())),
    }
}

/// The first line from `from` on that ends a header.
pub open spec fn header_stop(all: Seq<Seq<char>>, from: int) -> Option<int>
    decreases all.len() - from,
{
    if from >= all.len() {
        None
    } else if trim(all[from]) == "..."@ {
        Some(from)
    } else {
        header_stop(all, from + 1)
    }
}

/// How many lines the header takes.
pub open spec fn header_length(all: Seq<Seq<char>>) -> Result<int, Fault> {
    if all.len() == 0 || trim(all[0]) != "---"@ {
        Ok(0)
    } else {
        match header_stop(all, 0) {
            Some(i) => Ok(i + 1),
            None => Err(Fault::HeaderEnd),
        }
    }
}

/// Counts the lines of the header.
pub fn header_end(all: &Vec<String>) -> (res: Result<usize, SyncError>)
    ensures
        match res {
            Ok(n) => header_length(views(all@)) == Ok::<int, Fault>(n as int) && n <= all@.len(),
            Err(e) => header_length(views(all@)) == Err::<int, Fault>(e@),
        },
{
    if all.len() == 0 {
        return Ok(0);
    }
    let first = trim_text(all[0].as_str());
    assert(views(all@)[0] == all@[0]@);
    if !same_text(first.as_str(), "---") {
        return Ok(0);
    }
    let mut i: usize = 0;
    while i < all.len()
        invariant
            i <= all@.len(),
            all@.len() > 0,
            trim(views(all@)[0]) == "---"@,
            header_stop(views(all@), 0) == header_stop(views(all@), i as int),
        decreases all@.len() - i,
    {
        let line = trim_text(all[i].as_str());
        assert(views(all@)[i as int] == all@[i as int]@);
        if same_text(line.as_str(), "...") {
            return Ok(i + 1);
        }
        i = i + 1;
    }
    Err(SyncError::HeaderEnd)
}

/// The sign and the size of the binary64 number with the given bits, as an integer
/// that grows with the number.
pub open spec fn weight_rank(bits: u64) -> int {
    if bits < 0x8000_0000_0000_0000u64 {
        bits as int
    } else {
        0x8000_0000_0000_0000int - bits
    }
}

/// The binary64 value with the given bits is a finite number.
pub open spec fn weight_finite(bits: u64) -> bool {
    -0x7ff0_0000_0000_0000 < weight_rank(bits) < 0x7ff0_0000_0000_0000
}

/// The finite binary64 number `a` is greater than the finite binary64 number `b`.
pub open spec fn heavier(a: u64, b: u64) -> bool {
    weight_rank(a) > weight_rank(b)
}

/// Compares two weights, given by the bits of their binary64 representation.
pub fn is_heavier(a: u64, b: u64) -> (res: bool)
    ensures
        res == heavier(a, b),
{
    let sign: u64 = 0x8000_0000_0000_0000;
    if a < sign {
        b >= sign && (a > 0 || b > sign) || b < sign && a > b
    } else {
        b >= sign && a < b
    }
}

/// Tells whether the binary64 value with the given bits is a finite number.
fn is_finite(bits: u64) -> (res: bool)
    ensures
        res == weight_finite(bits),
{
    let sign: u64 = 0x8000_0000_0000_0000;
    let size: u64 = if bits < sign {
        bits
    } else {
        bits - sign
    };
    size < 0x7ff0_0000_0000_0000
}

/// A body line, and its key and weight if it has them.
pub struct Entry {
    pub line: Seq<char>,
    pub weight: Option<(Seq<char>, u64)>,
}

/// The text in which a body line gives its weight.
pub open spec fn weight_column(line: Seq<char>) -> Option<Seq<char>> {
    match split_last(line, "\t"@) {
        Some((_, number)) => Some(trim(number)),
        None => None,
    }
}

/// A body line's key and weight, where `number` is what its weight column denotes. Only a
/// finite number is a weight.
pub open spec fn line_weight(line: Seq<char>, number: Option<u64>) -> Option<(Seq<char>, u64)> {
    match (split_last(line, "\t"@), number) {
        (Some((key, _)), Some(bits)) => if weight_finite(bits) {
            Some((key, bits))
        } else {
            None
        },
        _ => None,
    }
}

/// Returns a body line's key and weight. `number` holds the bits of the binary64
/// number that the line's weight column denotes, if it denotes one. An infinite number,
/// or a value that is no number, is not a weight.
pub fn parse_weight(line: &str, number: Option<u64>) -> (res: Option<(String, u64)>)
    ensures
        match res {
            Some(p) => line_weight(line@, number) == Some((p.0@, p.1)),
            None => line_weight(line@, number) is None,
        },
{
    match split_text_last(line, "\t") {
        Some((key, _)) => match number {
            Some(bits) => if is_finite(bits) {
                Some((key, bits))
            } else {
                None
            },
            None => None,
        },
        None => None,
    }
}

/// Two body lines stand for the same record.
pub open spec fn same_record(a: Entry, b: Entry) -> bool {
    match (a.weight, b.weight) {
        (Some(x), Some(y)) => x.0 == y.0,
        (None, None) => a.line == b.line,
        _ => false,
    }
}

/// No earlier line stands for the record of line `i`.
pub open spec fn is_first(all: Seq<Entry>, i: int) -> bool {
    forall|j: int| 0 <= j < i ==> !same_record(#[trigger] all[j], all[i])
}

/// The lines below `n` that are the first of their record, in order.
pub open spec fn firsts(all: Seq<Entry>, n: int) -> Seq<int>
    decreases n,
{
    if n <= 0 {
        Seq::<int>::empty()
    } else if is_first(all, n - 1) {
        firsts(all, n - 1).push(n - 1)
    } else {
        firsts(all, n - 1)
    }
}

/// The line kept for the record that `first` begins, out of the lines below `n`:
/// the first one itself, until a heavier one comes.
pub open spec fn kept(all: Seq<Entry>, first: int, n: int) -> int
    decreases n - first,
{
    if n <= first + 1 {
        first
    } else {
        let best = kept(all, first, n - 1);
        let e = all[n - 1];
        if same_record(all[first], e) && e.weight is Some && heavier(
            (e.weight->0).1,
            (all[best].weight->0).1,
        ) {
            n - 1
        } else {
            best
        }
    }
}

/// The union of the first `n` lines: one line for each record, in the order in
/// which the records first appear.
pub open spec fn merged(all: Seq<Entry>, n: int) -> Seq<Seq<char>> {
    firsts(all, n).map_values(|i: int| all[kept(all, i, n)].line)
}

/// The header of the first dictionary, and the lines of both bodies.
pub open spec fn union_parts(a: Seq<char>, b: Seq<char>) -> Result<
    (Seq<Seq<char>>, Seq<Seq<char>>),
    Fault,
> {
    let (x, y) = (lines(a), lines(b));
    match (header_length(x), header_length(y)) {
        (Err(fault), _) => Err(fault),
        (_, Err(fault)) => Err(fault),
        (Ok(m), Ok(n)) => Ok((x.take(m), x.skip(m) + y.skip(n))),
    }
}

/// The body lines with their keys and weights.
pub open spec fn entries(body: Seq<Seq<char>>, numbers: Seq<Option<u64>>) -> Seq<Entry> {
    Seq::new(
        body.len(),
        |i: int| Entry { line: body[i], weight: line_weight(body[i], numbers[i]) },
    )
}

/// The text of the union of two dictionaries, where `numbers` holds for each body
/// line what its weight column denotes.
pub open spec fn union_text(a: Seq<char>, b: Seq<char>, numbers: Seq<Option<u64>>) -> Result<
    Seq<char>,
    Fault,
> {
    match union_parts(a, b) {
        Ok((header, body)) => Ok(
            terminated(header + merged(entries(body, numbers), body.len() as int)),
        ),
        Err(fault) => Err(fault),
    }
}

/// Appends the lines of `source` from `from` on to `target`.
fn extend_lines(target: &mut Vec<String>, source: &Vec<String>, from: usize, to: usize)
    requires
        from <= to <= source@.len(),
    ensures
        views(final(target)@) == views(old(target)@) + views(source@).subrange(
            from as int,
            to as int,
        ),
{
    let mut i: usize = from;
    let ghost start = views(target@);
    while i < to
        invariant
            from <= i <= to <= source@.len(),
            views(target@) == start + views(source@).subrange(from as int, i as int),
        decreases to - i,
    {
        let line = source[i].clone();
        let ghost held = views(target@);
        assert(views(source@)[i as int] == line@);
        target.push(line);
        assert(views(target@) == held.push(line@));
        i = i + 1;
        assert(views(source@).subrange(from as int, i as int) == views(source@).subrange(
            from as int,
            i - 1,
        ).push(views(source@)[i - 1]));
    }
}

/// Splits two dictionaries into the first one's header and the lines of both bodies.
fn split_union(a: &str, b: &str) -> (res: Result<(Vec<String>, Vec<String>), SyncError>)
    ensures
        match res {
            Ok(p) => union_parts(a@, b@) == Ok::<_, Fault>((views(p.0@), views(p.1@))),
            Err(e) => union_parts(a@, b@) == Err::<(Seq<Seq<char>>, Seq<Seq<char>>), Fault>(e@),
        },
{
    let x = text_lines(a);
    let y = text_lines(b);
    let m = match header_end(&x) {
        Ok(m) => m,
        Err(e) => {
            return Err(e);
        },
    };
    let n = match header_end(&y) {
        Ok(n) => n,
        Err(e) => {
            return Err(e);
        },
    };
    let mut header: Vec<String> = Vec::new();
    extend_lines(&mut header, &x, 0, m);
    let mut body: Vec<String> = Vec::new();
    extend_lines(&mut body, &x, m, x.len());
    extend_lines(&mut body, &y, n, y.len());
    assert(views(header@) == lines(a@).take(m as int));
    assert(views(body@) == lines(a@).skip(m as int) + lines(b@).skip(n as int));
    Ok((header, body))
}

/// Lists the weight column of each body line of two dictionaries, in the order in
/// which [`dictionary_union`] takes what the columns denote.
pub fn weight_columns(a: &str, b: &str) -> (res: Result<Vec<Option<String>>, SyncError>)
    ensures
        match res {
            Ok(v) => union_parts(a@, b@) is Ok && optional_views(v@) == (union_parts(
                a@,
                b@,
            )->Ok_0).1.map_values(|line: Seq<char>| weight_column(line)),
            Err(e) => union_parts(a@, b@) == Err::<(Seq<Seq<char>>, Seq<Seq<char>>), Fault>(e@),
        },
{
    let (_, body) = match split_union(a, b) {
        Ok(p) => p,
        Err(e) => {
            return Err(e);
        },
    };
    let ghost columns = views(body@).map_values(|line: Seq<char>| weight_column(line));
    let mut res: Vec<Option<String>> = Vec::new();
    let mut i: usize = 0;
    while i < body.len()
        invariant
            i <= body@.len(),
            columns == views(body@).map_values(|line: Seq<char>| weight_column(line)),
            optional_views(res@) == columns.take(i as int),
        decreases body@.len() - i,
    {
        let column = match split_text_last(body[i].as_str(), "\t") {
            Some((_, number)) => Some(trim_text(number.as_str())),
            None => None,
        };
        assert(views(body@)[i as int] == body@[i as int]@);
        let ghost before = optional_views(res@);
        res.push(column);
        i = i + 1;
        assert(optional_views(res@) == before.push(columns[i - 1]));
        assert(columns.take(i as int) == columns.take(i - 1).push(columns[i - 1]));
    }
    assert(columns.take(i as int) == columns);
    Ok(res)
}

/// The lines below `n` that are the first of their record lie below `n`, each is
/// the first of its record, and they come in ascending order.
proof fn lemma_firsts(all: Seq<Entry>, n: int)
    requires
        0 <= n <= all.len(),
    ensures
        forall|q: int|
            0 <= q < firsts(all, n).len() ==> 0 <= #[trigger] firsts(all, n)[q] < n && is_first(
                all,
                firsts(all, n)[q],
            ),
        forall|p: int, q: int|
            0 <= p < q < firsts(all, n).len() ==> #[trigger] firsts(all, n)[p]
                < #[trigger] firsts(all, n)[q],
    decreases n,
{
    if n > 0 {
        lemma_firsts(all, n - 1);
        let (f, g) = (firsts(all, n), firsts(all, n - 1));
        assert(forall|q: int| 0 <= q < g.len() ==> #[trigger] f[q] == g[q]);
        assert(f.len() > g.len() ==> f[g.len() as int] == n - 1);
        assert forall|q: int| 0 <= q < f.len() implies 0 <= #[trigger] f[q] < n && is_first(
            all,
            f[q],
        ) by {
            if q < g.len() {
                assert(0 <= g[q] < n - 1);
            }
        }
        assert forall|p: int, q: int| 0 <= p < q < f.len() implies #[trigger] f[p]
            < #[trigger] f[q] by {
            assert(0 <= g[p] < n - 1);
            if q < g.len() {
                assert(g[p] < g[q]);
            }
        }
    }
}

/// The line kept for a record is a line of that record.
proof fn lemma_kept(all: Seq<Entry>, first: int, n: int)
    requires
        0 <= first < n <= all.len(),
    ensures
        first <= kept(all, first, n) < n,
        same_record(all[first], all[kept(all, first, n)]),
    decreases n - first,
{
    if n > first + 1 {
        lemma_kept(all, first, n - 1);
    }
}

/// Two records' first lines stand for different records.
proof fn lemma_firsts_differ(all: Seq<Entry>, n: int, p: int, q: int)
    requires
        0 <= n <= all.len(),
        0 <= p < firsts(all, n).len(),
        0 <= q < firsts(all, n).len(),
        p != q,
    ensures
        !same_record(all[firsts(all, n)[p]], all[firsts(all, n)[q]]),
{
    lemma_firsts(all, n);
    let (x, y) = (firsts(all, n)[p], firsts(all, n)[q]);
    if p < q {
        assert(is_first(all, y));
        assert(!same_record(all[x], all[y]));
    } else {
        assert(is_first(all, x));
        assert(!same_record(all[y], all[x]));
    }
}

/// Every line's record has a first line.
proof fn lemma_has_first(all: Seq<Entry>, n: int, i: int) -> (q: int)
    requires
        0 <= i < n <= all.len(),
    ensures
        0 <= q < firsts(all, n).len(),
        firsts(all, n)[q] <= i,
        same_record(all[firsts(all, n)[q]], all[i]),
    decreases n,
{
    if i < n - 1 {
        lemma_has_first(all, n - 1, i)
    } else if is_first(all, i) {
        firsts(all, n).len() - 1
    } else {
        let j = choose|j: int| 0 <= j < i && same_record(#[trigger] all[j], all[i]);
        lemma_has_first(all, n - 1, j)
    }
}

/// How a line of a new record extends the union.
proof fn lemma_merge_new(all: Seq<Entry>, n: int)
    requires
        0 <= n < all.len(),
        is_first(all, n),
    ensures
        merged(all, n + 1) == merged(all, n).push(all[n].line),
        firsts(all, n + 1) == firsts(all, n).push(n),
        kept(all, n, n + 1) == n,
        forall|q: int|
            0 <= q < firsts(all, n).len() ==> kept(all, #[trigger] firsts(all, n)[q], n + 1)
                == kept(all, firsts(all, n)[q], n),
{
    lemma_firsts(all, n);
    assert forall|q: int| 0 <= q < firsts(all, n).len() implies kept(
        all,
        #[trigger] firsts(all, n)[q],
        n + 1,
    ) == kept(all, firsts(all, n)[q], n) by {
        assert(!same_record(all[firsts(all, n)[q]], all[n]));
    }
    assert(merged(all, n + 1) =~= merged(all, n).push(all[n].line));
}

/// How a further line of the record at position `pos` changes the union.
proof fn lemma_merge_known(all: Seq<Entry>, n: int, pos: int)
    requires
        0 <= n < all.len(),
        0 <= pos < firsts(all, n).len(),
        same_record(all[firsts(all, n)[pos]], all[n]),
    ensures
        firsts(all, n + 1) == firsts(all, n),
        forall|q: int|
            0 <= q < firsts(all, n).len() && q != pos ==> kept(
                all,
                #[trigger] firsts(all, n)[q],
                n + 1,
            ) == kept(all, firsts(all, n)[q], n),
        merged(all, n + 1) == merged(all, n).update(
            pos,
            all[kept(all, firsts(all, n)[pos], n + 1)].line,
        ),
{
    lemma_firsts(all, n);
    let f = firsts(all, n)[pos];
    assert(!is_first(all, n));
    assert forall|q: int| 0 <= q < firsts(all, n).len() && q != pos implies kept(
        all,
        #[trigger] firsts(all, n)[q],
        n + 1,
    ) == kept(all, firsts(all, n)[q], n) by {
        lemma_firsts_differ(all, n, pos, q);
        assert(!same_record(all[firsts(all, n)[q]], all[n]));
    }
    assert(merged(all, n + 1) =~= merged(all, n).update(pos, all[kept(all, f, n + 1)].line));
}

/// `seen` holds the unweighted lines below `n`.
spec fn seen_lines(all: Seq<Entry>, n: int, seen: Map<Seq<char>, bool>) -> bool {
    &&& forall|i: int|
        0 <= i < n && (#[trigger] all[i]).weight is None ==> seen.contains_key(all[i].line)
    &&& forall|line: Seq<char>| #[trigger]
        seen.contains_key(line) ==> exists|i: int|
            0 <= i < n && (#[trigger] all[i]).weight is None && all[i].line == line
}

/// `best` holds for each key below `n` the weight kept and the place of its line.
spec fn best_weights(all: Seq<Entry>, n: int, best: Map<Seq<char>, (u64, usize)>) -> bool {
    &&& forall|i: int|
        0 <= i < n && (#[trigger] all[i]).weight is Some ==> best.contains_key(
            (all[i].weight->0).0,
        )
    &&& forall|key: Seq<char>| #[trigger]
        best.contains_key(key) ==> {
            let pos = best[key].1 as int;
            let first = firsts(all, n)[pos];
            &&& pos < firsts(all, n).len()
            &&& all[first].weight is Some
            &&& (all[first].weight->0).0 == key
            &&& best[key].0 == (all[kept(all, first, n)].weight->0).1
        }
}

/// Unites the body lines: one line for each record, the heaviest where a record
/// carries weights.
#[verifier::rlimit(50)]
fn merge_lines(body: &Vec<String>, numbers: &Vec<Option<u64>>) -> (res: Vec<String>)
    requires
        numbers@.len() == body@.len(),
    ensures
        views(res@) == merged(entries(views(body@), numbers@), body@.len() as int),
{
    let ghost all = entries(views(body@), numbers@);
    let mut out: Vec<String> = Vec::new();
    let mut seen: StringHashMap<bool> = StringHashMap::new();
    let mut best: StringHashMap<(u64, usize)> = StringHashMap::new();
    let mut n: usize = 0;
    assert(views(out@) =~= merged(all, 0));
    while n < body.len()
        invariant
            n <= body@.len(),
            numbers@.len() == body@.len(),
            all == entries(views(body@), numbers@),
            views(out@) == merged(all, n as int),
            seen_lines(all, n as int, seen@),
            best_weights(all, n as int, best@),
        decreases body@.len() - n,
    {
        let line = body[n].clone();
        let ghost e = all[n as int];
        assert(e.line == line@);
        let ghost before = views(out@);
        proof {
            lemma_firsts(all, n as int);
        }
        match parse_weight(line.as_str(), numbers[n]) {
            Some((key, bits)) => {
                let ghost k = key@;
                assert(e.weight == Some((k, bits)));
                let known: Option<(u64, usize)> = match best.get(key.as_str()) {
                    Some(p) => Some(*p),
                    None => None,
                };
                match known {
                    Some((old_bits, pos)) => {
                        let ghost f = firsts(all, n as int)[pos as int];
                        proof {
                            assert(best@.contains_key(k));
                            lemma_kept(all, f, n as int);
                            lemma_merge_known(all, n as int, pos as int);
                            assert(before.len() == out@.len());
                        }
                        if is_heavier(bits, old_bits) {
                            assert(kept(all, f, n + 1) == n);
                            out.set(pos, line);
                            best.insert(key, (bits, pos));
                            assert(views(out@) =~= before.update(pos as int, line@));
                        } else {
                            assert(kept(all, f, n + 1) == kept(all, f, n as int));
                            assert(before.update(
                                pos as int,
                                all[kept(all, f, n + 1)].line,
                            ) =~= before);
                        }
                        proof {
                            assert forall|key2: Seq<char>| #[trigger]
                                best@.contains_key(key2) implies {
                                let p2 = best@[key2].1 as int;
                                let first = firsts(all, n + 1)[p2];
                                &&& p2 < firsts(all, n + 1).len()
                                &&& all[first].weight is Some
                                &&& (all[first].weight->0).0 == key2
                                &&& best@[key2].0 == (all[kept(all, first, n + 1)].weight->0).1
                            } by {
                                if key2 != k {
                                    assert(best@[key2].1 as int != pos);
                                }
                            }
                        }
                    },
                    None => {
                        proof {
                            assert(!best@.contains_key(k));
                            assert(is_first(all, n as int)) by {
                                assert forall|j: int| 0 <= j < n implies !same_record(
                                    #[trigger] all[j],
                                    all[n as int],
                                ) by {}
                            }
                            lemma_merge_new(all, n as int);
                            assert(before.len() == out@.len());
                        }
                        let pos = out.len();
                        let ghost old_best = best@;
                        out.push(line);
                        best.insert(key, (bits, pos));
                        assert(views(out@) =~= before.push(line@));
                        proof {
                            assert forall|key2: Seq<char>| #[trigger]
                                best@.contains_key(key2) implies {
                                let p2 = best@[key2].1 as int;
                                let first = firsts(all, n + 1)[p2];
                                &&& p2 < firsts(all, n + 1).len()
                                &&& all[first].weight is Some
                                &&& (all[first].weight->0).0 == key2
                                &&& best@[key2].0 == (all[kept(all, first, n + 1)].weight->0).1
                            } by {
                                if key2 != k {
                                    assert(old_best.contains_key(key2));
                                    let p2 = old_best[key2].1 as int;
                                    assert(firsts(all, n + 1)[p2] == firsts(all, n as int)[p2]);
                                }
                            }
                        }
                    },
                }
                assert(seen_lines(all, n + 1, seen@));
            },
            None => {
                let ghost old_seen = seen@;
                assert(e.weight is None);
                if seen.contains_key(line.as_str()) {
                    proof {
                        let i = choose|i: int|
                            0 <= i < n && (#[trigger] all[i]).weight is None && all[i].line
                                == line@;
                        let q = lemma_has_first(all, n as int, i);
                        let f = firsts(all, n as int)[q];
                        lemma_merge_known(all, n as int, q);
                        lemma_kept(all, f, n + 1);
                        assert(kept(all, f, n + 1) == kept(all, f, n as int));
                        assert(before.update(q, all[kept(all, f, n + 1)].line) =~= before);
                    }
                } else {
                    proof {
                        assert(is_first(all, n as int)) by {
                            assert forall|j: int| 0 <= j < n implies !same_record(
                                #[trigger] all[j],
                                all[n as int],
                            ) by {}
                        }
                        lemma_merge_new(all, n as int);
                    }
                    seen.insert(line.clone(), true);
                    out.push(line);
                    assert(views(out@) =~= before.push(line@));
                    assert(all[n as int].line == line@);
                }
                proof {
                    assert forall|key2: Seq<char>| #[trigger] best@.contains_key(key2) implies {
                        let p2 = best@[key2].1 as int;
                        let first = firsts(all, n + 1)[p2];
                        &&& p2 < firsts(all, n + 1).len()
                        &&& all[first].weight is Some
                        &&& (all[first].weight->0).0 == key2
                        &&& best@[key2].0 == (all[kept(all, first, n + 1)].weight->0).1
                    } by {
                        let p2 = best@[key2].1 as int;
                        assert(firsts(all, n + 1)[p2] == firsts(all, n as int)[p2]);
                        assert(!same_record(all[firsts(all, n as int)[p2]], all[n as int]));
                    }
                }
            },
        }
        n = n + 1;
    }
    out
}

/// Unites two dictionaries. `numbers` holds for each body line, in the order of
/// [`weight_columns`], the bits of the binary64 number that its weight column
/// denotes, if it denotes one.
pub fn dictionary_union(a: &str, b: &str, numbers: &Vec<Option<u64>>) -> (res: Result<
    String,
    SyncError,
>)
    requires
        union_parts(a@, b@) matches Ok(p) ==> numbers@.len() == p.1.len(),
    ensures
        match res {
            Ok(text) => union_text(a@, b@, numbers@) == Ok::<Seq<char>, Fault>(text@),
            Err(e) => union_text(a@, b@, numbers@) == Err::<Seq<char>, Fault>(e@),
        },
{
    let (header, body) = match split_union(a, b) {
        Ok(p) => p,
        Err(e) => {
            return Err(e);
        },
    };
    let united = merge_lines(&body, numbers);
    let mut all: Vec<String> = Vec::new();
    extend_lines(&mut all, &header, 0, header.len());
    extend_lines(&mut all, &united, 0, united.len());
    assert(views(all@) =~= views(header@) + views(united@));
    Ok(terminate_lines(&all))
}

/// The entries whose lines make up the union.
pub open spec fn union_entries(all: Seq<Entry>) -> Seq<Entry> {
    firsts(all, all.len() as int).map_values(|i: int| all[kept(all, i, all.len() as int)])
}

/// The union of a body is a list of the body's own entries, in the order in which
/// their records first appear: the record of an earlier line of the union begins
/// before the record of a later one.
pub proof fn law_union_is_ordered(all: Seq<Entry>, p: int, q: int)
    requires
        0 <= p < q < merged(all, all.len() as int).len(),
    ensures
        union_entries(all).len() == merged(all, all.len() as int).len(),
        union_entries(all)[p].line == merged(all, all.len() as int)[p],
        all.contains(union_entries(all)[p]),
        all.contains(union_entries(all)[q]),
        exists|i: int, j: int|
            0 <= i < j < all.len() && is_first(all, i) && is_first(all, j) && #[trigger] same_record(
                all[i],
                union_entries(all)[p],
            ) && #[trigger] same_record(all[j], union_entries(all)[q]),
{
    let n = all.len() as int;
    lemma_firsts(all, n);
    let (i, j) = (firsts(all, n)[p], firsts(all, n)[q]);
    lemma_kept(all, i, n);
    lemma_kept(all, j, n);
    assert(union_entries(all)[p] == all[kept(all, i, n)]);
    assert(union_entries(all)[q] == all[kept(all, j, n)]);
    assert(i < j && same_record(all[i], union_entries(all)[p]) && same_record(
        all[j],
        union_entries(all)[q],
    ));
}

/// The union holds one line for each record: no repeated unweighted line, and no
/// two lines with the same key.
pub proof fn law_union_has_no_duplicates(all: Seq<Entry>, p: int, q: int)
    requires
        0 <= p < union_entries(all).len(),
        0 <= q < union_entries(all).len(),
        p != q,
    ensures
        !same_record(union_entries(all)[p], union_entries(all)[q]),
{
    let n = all.len() as int;
    lemma_firsts(all, n);
    lemma_kept(all, firsts(all, n)[p], n);
    lemma_kept(all, firsts(all, n)[q], n);
    lemma_firsts_differ(all, n, p, q);
}

/// The union loses no record: every line of either body has its record in it.
pub proof fn law_union_covers_both_bodies(all: Seq<Entry>, i: int)
    requires
        0 <= i < all.len(),
    ensures
        exists|q: int|
            0 <= q < union_entries(all).len() && #[trigger] same_record(
                union_entries(all)[q],
                all[i],
            ),
{
    let n = all.len() as int;
    let q = lemma_has_first(all, n, i);
    lemma_firsts(all, n);
    lemma_kept(all, firsts(all, n)[q], n);
    assert(same_record(union_entries(all)[q], all[i]));
}

/// No line of a record is heavier than the one kept out of the lines below `n`.
proof fn lemma_kept_heaviest(all: Seq<Entry>, first: int, n: int, i: int)
    requires
        0 <= first <= i < n <= all.len(),
        all[first].weight is Some,
        same_record(all[first], all[i]),
    ensures
        !heavier((all[i].weight->0).1, (all[kept(all, first, n)].weight->0).1),
    decreases n - first,
{
    if n > first + 1 {
        lemma_kept(all, first, n - 1);
        if i < n - 1 {
            lemma_kept_heaviest(all, first, n - 1, i);
        }
    }
}

/// Of the lines that differ in their weight alone, the union keeps one that no
/// other is heavier than.
pub proof fn law_union_keeps_the_heaviest(all: Seq<Entry>, i: int, q: int)
    requires
        0 <= i < all.len(),
        0 <= q < union_entries(all).len(),
        all[i].weight is Some,
        same_record(union_entries(all)[q], all[i]),
    ensures
        !heavier((all[i].weight->0).1, (union_entries(all)[q].weight->0).1),
{
    let n = all.len() as int;
    lemma_firsts(all, n);
    let first = firsts(all, n)[q];
    lemma_kept(all, first, n);
    let p = lemma_has_first(all, n, i);
    if p != q {
        lemma_firsts_differ(all, n, p, q);
    }
    lemma_kept_heaviest(all, first, n, i);
}

/// Uniting a union with lines that it already covers changes nothing.
pub proof fn law_union_is_stable(all: Seq<Entry>, rest: Seq<Entry>)
    requires
        forall|i: int| 0 <= i < rest.len() ==> all.contains(#[trigger] rest[i]),
    ensures
        ({
            let again = union_entries(all) + rest;
            merged(again, again.len() as int) == merged(all, all.len() as int)
        }),
{
    let base = union_entries(all);
    let again = base + rest;
    let m = base.len() as int;
    lemma_stable_prefix(all, rest, m);
    lemma_stable_rest(all, rest, again.len() as int);
    assert(merged(again, again.len() as int) =~= merged(all, all.len() as int)) by {
        assert forall|q: int| 0 <= q < m implies merged(again, again.len() as int)[q] == merged(
            all,
            all.len() as int,
        )[q] by {
            lemma_stable_kept(all, rest, q, again.len() as int);
        }
    }
}

proof fn lemma_stable_prefix(all: Seq<Entry>, rest: Seq<Entry>, n: int)
    requires
        0 <= n <= union_entries(all).len(),
    ensures
        firsts(union_entries(all) + rest, n) == Seq::new(n as nat, |i: int| i),
    decreases n,
{
    let again = union_entries(all) + rest;
    if n > 0 {
        lemma_stable_prefix(all, rest, n - 1);
        assert(is_first(again, n - 1)) by {
            assert forall|j: int| 0 <= j < n - 1 implies !same_record(
                #[trigger] again[j],
                again[n - 1],
            ) by {
                law_union_has_no_duplicates(all, j, n - 1);
            }
        }
    }
    assert(firsts(again, n) =~= Seq::new(n as nat, |i: int| i));
}

proof fn lemma_stable_rest(all: Seq<Entry>, rest: Seq<Entry>, n: int)
    requires
        forall|i: int| 0 <= i < rest.len() ==> all.contains(#[trigger] rest[i]),
        union_entries(all).len() <= n <= union_entries(all).len() + rest.len(),
    ensures
        firsts(union_entries(all) + rest, n) == Seq::new(
            union_entries(all).len(),
            |i: int| i,
        ),
    decreases n,
{
    let again = union_entries(all) + rest;
    let m = union_entries(all).len() as int;
    if n == m {
        lemma_stable_prefix(all, rest, m);
    } else {
        lemma_stable_rest(all, rest, n - 1);
        let e = rest[n - 1 - m];
        assert(again[n - 1] == e);
        let i = choose|i: int| 0 <= i < all.len() && all[i] == e;
        law_union_covers_both_bodies(all, i);
        let q = choose|q: int|
            0 <= q < union_entries(all).len() && #[trigger] same_record(
                union_entries(all)[q],
                all[i],
            );
        assert(same_record(again[q], again[n - 1]));
        assert(!is_first(again, n - 1));
    }
}

proof fn lemma_stable_kept(all: Seq<Entry>, rest: Seq<Entry>, q: int, n: int)
    requires
        forall|i: int| 0 <= i < rest.len() ==> all.contains(#[trigger] rest[i]),
        0 <= q < union_entries(all).len(),
        q < n <= union_entries(all).len() + rest.len(),
    ensures
        kept(union_entries(all) + rest, q, n) == q,
    decreases n - q,
{
    let base = union_entries(all);
    let again = base + rest;
    let m = base.len() as int;
    if n > q + 1 {
        lemma_stable_kept(all, rest, q, n - 1);
        if n - 1 < m {
            law_union_has_no_duplicates(all, q, n - 1);
            assert(again[q] == base[q] && again[n - 1] == base[n - 1]);
        } else {
            let e = rest[n - 1 - m];
            assert(again[n - 1] == e);
            let i = choose|i: int| 0 <= i < all.len() && all[i] == e;
            if same_record(again[q], e) && e.weight is Some {
                law_union_keeps_the_heaviest(all, i, q);
            }
        }
    }
}

/// What the weight columns of body lines denote, where `weigh` gives what a column's text
/// denotes.
pub open spec fn weighed(
    weigh: spec_fn(Seq<char>) -> Option<u64>,
    body: Seq<Seq<char>>,
) -> Seq<Option<u64>> {
    body.map_values(
        |line: Seq<char>| match weight_column(line) {
            Some(column) => weigh(column),
            None => None,
        },
    )
}

/// The text of the union of two dictionaries, where `weigh` gives what the text of a
/// weight column denotes.
pub open spec fn merged_text(
    a: Seq<char>,
    b: Seq<char>,
    weigh: spec_fn(Seq<char>) -> Option<u64>,
) -> Result<Seq<char>, Fault> {
    match union_parts(a, b) {
        Ok((_, body)) => union_text(a, b, weighed(weigh, body)),
        Err(fault) => Err(fault),
    }
}

/// No line of the text ends in a carriage return.
pub open spec fn ends_plainly(text: Seq<char>) -> bool {
    forall|i: int| 0 <= i < lines(text).len() ==> chomp(#[trigger] lines(text)[i]) == lines(text)[i]
}

/// No line holds a line feed.
proof fn lemma_lines_lack(text: Seq<char>)
    ensures
        forall|i: int| 0 <= i < lines(text).len() ==> !(#[trigger] lines(text)[i]).contains('\n'),
        text.len() > 0 ==> lines(text).len() > 0,
{
    let parts = split_on(text, '\n');
    lemma_split_lacks(text, '\n', '\n');
    lemma_split_nonempty(text, '\n');
    assert forall|i: int| 0 <= i < lines(text).len() implies !(#[trigger] lines(text)[i]).contains(
        '\n',
    ) by {
        assert(!parts[i].contains('\n'));
        if lines(text)[i] != parts[i] {
            assert(lines(text)[i] == parts[i].drop_last());
            assert forall|x: int| 0 <= x < lines(text)[i].len() implies lines(text)[i][x]
                != '\n' by {
                assert(parts[i].contains(parts[i][x]));
            }
        }
    }
    if text.len() > 0 {
        if text.last() == '\n' {
            lemma_split_nonempty(text.drop_last(), '\n');
        } else {
            assert(parts.last().len() > 0);
        }
    }
}

/// Where a header ends does not depend on what follows it.
proof fn lemma_header_stop(all: Seq<Seq<char>>, more: Seq<Seq<char>>, from: int, stop: int)
    requires
        0 <= from,
        header_stop(all, from) == Some(stop),
    ensures
        from <= stop < all.len(),
        header_stop(all.take(stop + 1) + more, from) == Some(stop),
    decreases all.len() - from,
{
    let other = all.take(stop + 1) + more;
    if trim(all[from]) == "..."@ {
        assert(other[from] == all[from]);
    } else {
        lemma_header_stop(all, more, from + 1, stop);
        assert(other[from] == all[from]);
    }
}

proof fn lemma_trim_start_keeps(s: Seq<char>, i: int)
    requires
        0 <= i < s.len(),
        !white(s[i]),
    ensures
        s.len() - i <= trim_start(s).len() <= s.len(),
        trim_start(s) == s.skip(s.len() - trim_start(s).len()),
    decreases s.len(),
{
    if white(s[0]) {
        let rest = s.drop_first();
        assert(rest[i - 1] == s[i]);
        lemma_trim_start_keeps(rest, i - 1);
        assert(rest.skip(rest.len() - trim_start(rest).len()) =~= s.skip(
            s.len() - trim_start(s).len(),
        ));
    } else {
        assert(s.skip(0) =~= s);
    }
}

proof fn lemma_trim_end_keeps(s: Seq<char>, i: int)
    requires
        0 <= i < s.len(),
        !white(s[i]),
    ensures
        i < trim_end(s).len() <= s.len(),
        trim_end(s) == s.take(trim_end(s).len() as int),
{
    lemma_trim_end_tail(s);
}

/// What stands between two characters that are no white space is not trimmed.
proof fn lemma_trim_keeps(s: Seq<char>, i: int, j: int)
    requires
        0 <= i < j < s.len(),
        !white(s[i]),
        !white(s[j]),
    ensures
        forall|x: int| i <= x <= j ==> trim(s).contains(#[trigger] s[x]),
{
    lemma_trim_start_keeps(s, i);
    let front = trim_start(s);
    let d = s.len() - front.len();
    assert(front[j - d] == s[j]);
    lemma_trim_end_keeps(front, j - d);
    assert forall|x: int| i <= x <= j implies trim(s).contains(#[trigger] s[x]) by {
        assert(trim(s)[x - d] == s[x]);
    }
}

proof fn lemma_trim_white(s: Seq<char>)
    requires
        trim(s).len() > 0,
    ensures
        exists|i: int| 0 <= i < s.len() && !white(#[trigger] s[i]),
    decreases s.len(),
{
    if s.len() > 0 && white(s[0]) {
        let rest = s.drop_first();
        lemma_trim_white(rest);
        let i = choose|i: int| 0 <= i < rest.len() && !white(#[trigger] rest[i]);
        assert(!white(s[i + 1]));
    } else {
        assert(!white(s[0]));
    }
}

/// White space in front makes no difference.
proof fn lemma_trim_after(s: Seq<char>, n: int)
    requires
        0 <= n <= s.len(),
        forall|i: int| 0 <= i < n ==> white(#[trigger] s[i]),
    ensures
        trim(s) == trim(s.skip(n)),
    decreases n,
{
    if n > 0 {
        assert(white(s[0]));
        let rest = s.drop_first();
        assert forall|i: int| 0 <= i < n - 1 implies white(#[trigger] rest[i]) by {
            assert(white(s[i + 1]));
        }
        lemma_trim_after(rest, n - 1);
        assert(rest.skip(n - 1) =~= s.skip(n));
    } else {
        assert(s.skip(0) =~= s);
    }
}

/// A line with a weight does not begin a header: what it ends in is neither nothing nor
/// three dashes.
proof fn lemma_weight_is_no_header(line: Seq<char>)
    requires
        weight_column(line) matches Some(column) && column.len() > 0 && column != "---"@,
    ensures
        trim(line) != "---"@,
{
    reveal_strlit("\t");
    reveal_strlit("---");
    let t = last_at(line, "\t"@, line.len() as int + 1)->0;
    lemma_last_tab(line, line.len() as int + 1);
    let number = line.skip(t + 1);
    lemma_trim_white(number);
    let j = choose|j: int| 0 <= j < number.len() && !white(#[trigger] number[j]);
    assert(!white(line[t + 1 + j]));
    if exists|i: int| 0 <= i < t && !white(#[trigger] line[i]) {
        let i = choose|i: int| 0 <= i < t && !white(#[trigger] line[i]);
        lemma_trim_keeps(line, i, t + 1 + j);
        assert(trim(line).contains(line[t]));
    } else {
        lemma_trim_after(line, t + 1);
    }
}

proof fn lemma_last_tab(line: Seq<char>, end: int)
    requires
        last_at(line, "\t"@, end) is Some,
    ensures
        0 <= last_at(line, "\t"@, end)->0 < line.len(),
        line[last_at(line, "\t"@, end)->0] == '\t',
    decreases end,
{
    reveal_strlit("\t");
    if has_at(line, end - 1, "\t"@) {
        assert(line.subrange(end - 1, end)[0] == line[end - 1]);
    } else {
        lemma_last_tab(line, end - 1);
    }
}

/// The first line of a union begins no header, if the first line of the body does not.
proof fn lemma_first_is_no_header(
    body: Seq<Seq<char>>,
    weigh: spec_fn(Seq<char>) -> Option<u64>,
)
    requires
        body.len() > 0,
        trim(body[0]) != "---"@,
        weigh(""@) is None,
        weigh("---"@) is None,
    ensures
        ({
            let all = entries(body, weighed(weigh, body));
            let united = merged(all, all.len() as int);
            united.len() > 0 && trim(united[0]) != "---"@
        }),
{
    reveal_strlit("");
    let all = entries(body, weighed(weigh, body));
    let n = all.len() as int;
    lemma_firsts(all, n);
    lemma_begins(all, n);
    let k = kept(all, 0, n);
    lemma_kept(all, 0, n);
    assert(merged(all, n)[0] == all[k].line);
    if all[0].weight is None {
        lemma_kept_unweighted(all, 0, n);
    } else {
        let column = weight_column(body[k])->0;
        assert(all[k].weight is Some);
        assert(weigh(column) is Some);
        if column.len() == 0 {
            assert(column =~= ""@);
        }
        lemma_weight_is_no_header(body[k]);
    }
}

/// The first line begins the first record.
proof fn lemma_begins(all: Seq<Entry>, n: int)
    requires
        0 < n <= all.len(),
    ensures
        firsts(all, n).len() > 0,
        firsts(all, n)[0] == 0,
    decreases n,
{
    if n > 1 {
        lemma_begins(all, n - 1);
    } else {
        assert(is_first(all, 0));
        assert(firsts(all, 0) == Seq::<int>::empty());
    }
}

/// A line without a weight is kept as it is.
proof fn lemma_kept_unweighted(all: Seq<Entry>, first: int, n: int)
    requires
        0 <= first < n <= all.len(),
        all[first].weight is None,
    ensures
        kept(all, first, n) == first,
    decreases n - first,
{
    if n > first + 1 {
        lemma_kept_unweighted(all, first, n - 1);
    }
}

/// The entries of a union's lines are the union's entries.
proof fn lemma_entries_again(body: Seq<Seq<char>>, weigh: spec_fn(Seq<char>) -> Option<u64>)
    ensures
        ({
            let all = entries(body, weighed(weigh, body));
            let united = merged(all, all.len() as int);
            let twice = united + united;
            entries(twice, weighed(weigh, twice)) == union_entries(all) + union_entries(all)
        }),
{
    let all = entries(body, weighed(weigh, body));
    let n = all.len() as int;
    let united = merged(all, n);
    let twice = united + united;
    let base = union_entries(all);
    lemma_firsts(all, n);
    assert forall|i: int| 0 <= i < twice.len() implies entries(twice, weighed(weigh, twice))[i]
        == (base + base)[i] by {
        let q = if i < united.len() {
            i
        } else {
            i - united.len()
        };
        let first = firsts(all, n)[q];
        lemma_kept(all, first, n);
        let k = kept(all, first, n);
        assert(twice[i] == united[q] && united[q] == all[k].line && all[k].line == body[k]);
        assert(weighed(weigh, twice)[i] == weighed(weigh, body)[k]);
        assert((base + base)[i] == all[k]);
    }
    assert(entries(twice, weighed(weigh, twice)) =~= base + base);
}

/// The lines of a union are lines of the two dictionaries.
proof fn lemma_union_lines(
    a: Seq<char>,
    b: Seq<char>,
    weigh: spec_fn(Seq<char>) -> Option<u64>,
)
    requires
        ends_plainly(a),
        ends_plainly(b),
        union_parts(a, b) is Ok,
    ensures
        ({
            let (header, body) = union_parts(a, b)->Ok_0;
            let all = entries(body, weighed(weigh, body));
            let united = merged(all, all.len() as int);
            lines(terminated(header + united)) == header + united
        }),
{
    let (x, y) = (lines(a), lines(b));
    let (m, k) = (header_length(x)->Ok_0, header_length(y)->Ok_0);
    lemma_header_bounds(x);
    lemma_header_bounds(y);
    let (header, body) = union_parts(a, b)->Ok_0;
    lemma_lines_lack(a);
    lemma_lines_lack(b);
    let all = entries(body, weighed(weigh, body));
    let n = all.len() as int;
    let united = merged(all, n);
    lemma_firsts(all, n);
    assert forall|i: int| 0 <= i < body.len() implies !(#[trigger] body[i]).contains('\n') && chomp(
        body[i],
    ) == body[i] by {
        if i < x.len() - m {
            assert(body[i] == x[i + m]);
        } else {
            assert(body[i] == y[i - (x.len() - m) + k]);
        }
    }
    assert forall|i: int| 0 <= i < (header + united).len() implies !(#[trigger] (header
        + united)[i]).contains('\n') && chomp((header + united)[i]) == (header + united)[i] by {
        if i < header.len() {
            assert((header + united)[i] == x[i]);
        } else {
            let first = firsts(all, n)[i - header.len()];
            lemma_kept(all, first, n);
            assert((header + united)[i] == body[kept(all, first, n)]);
        }
    }
    lemma_lines_terminated(header + united);
}

proof fn lemma_header_bounds(all: Seq<Seq<char>>)
    requires
        header_length(all) is Ok,
    ensures
        0 <= header_length(all)->Ok_0 <= all.len(),
{
    if header_stop(all, 0) is Some {
        lemma_header_stop(all, Seq::empty(), 0, header_stop(all, 0)->0);
    }
}

/// Merging again changes nothing: the union of a union with itself is the union. The
/// first dictionary is not empty, no line of either ends in a carriage return, and
/// neither an empty text nor three dashes denote a number.
pub proof fn law_merging_twice_changes_nothing(
    a: Seq<char>,
    b: Seq<char>,
    weigh: spec_fn(Seq<char>) -> Option<u64>,
)
    requires
        a.len() > 0,
        ends_plainly(a),
        ends_plainly(b),
        weigh(""@) is None,
        weigh("---"@) is None,
        union_parts(a, b) is Ok,
    ensures
        ({
            let once = merged_text(a, b, weigh);
            &&& once is Ok
            &&& merged_text(once->Ok_0, once->Ok_0, weigh) == once
        }),
{
    let (header, body) = union_parts(a, b)->Ok_0;
    let all = entries(body, weighed(weigh, body));
    let n = all.len() as int;
    let united = merged(all, n);
    let whole = header + united;
    let text = terminated(whole);
    let x = lines(a);
    lemma_union_lines(a, b, weigh);
    lemma_lines_lack(a);
    lemma_header_bounds(x);
    let h = header_length(x)->Ok_0;
    if h > 0 {
        lemma_header_stop(x, united, 0, h - 1);
        assert(whole[0] == x[0]);
    } else {
        assert(header =~= Seq::<Seq<char>>::empty());
        assert(body[0] == x[0]);
        if trim(x[0]) == "---"@ {
            lemma_header_stop(x, united, 0, header_stop(x, 0)->0);
        }
        lemma_first_is_no_header(body, weigh);
        assert(whole =~= united);
    }
    assert(header_length(whole) == Ok::<int, Fault>(h));
    assert(whole.take(h) =~= header);
    assert(whole.skip(h) =~= united);
    lemma_entries_again(body, weigh);
    let base = union_entries(all);
    lemma_firsts(all, n);
    assert forall|i: int| 0 <= i < base.len() implies all.contains(#[trigger] base[i]) by {
        let first = firsts(all, n)[i];
        lemma_kept(all, first, n);
        assert(base[i] == all[kept(all, first, n)]);
    }
    law_union_is_stable(all, base);
}

/// Only the null character is encoded with a null byte.
proof fn lemma_scalar_bytes(c: u32)
    requires
        c <= 0x10ffff,
    ensures
        encode_scalar(c).len() > 0,
        forall|i: int| 0 <= i < encode_scalar(c).len() ==> (#[trigger] encode_scalar(c)[i] == 0 <==> c == 0),
{
    assert(c <= 0x7f ==> ((c & 0x7f) as u8 == 0 <==> c == 0)) by (bit_vector);
    assert(0xc0u8 | ((c >> 6) & 0x1f) as u8 != 0) by (bit_vector);
    assert(0xe0u8 | ((c >> 12) & 0x0f) as u8 != 0) by (bit_vector);
    assert(0xf0u8 | ((c >> 18) & 0x7) as u8 != 0) by (bit_vector);
    assert(0x80u8 | (c & 0x3f) as u8 != 0) by (bit_vector);
    assert(0x80u8 | ((c >> 6) & 0x3f) as u8 != 0) by (bit_vector);
    assert(0x80u8 | ((c >> 12) & 0x3f) as u8 != 0) by (bit_vector);
}

/// A text is encoded with a null byte just where it holds the null character.
proof fn lemma_null_bytes(text: Seq<char>)
    ensures
        encode_utf8(text).contains(0u8) <==> text.contains('\0'),
    decreases text.len(),
{
    if text.len() > 0 {
        let c = text[0] as u32;
        let first = encode_scalar(c);
        let rest = text.drop_first();
        let bytes = encode_utf8(text);
        vstd::utf8::char_is_scalar(text[0]);
        vstd::utf8::char_u32_cast(text[0], c);
        lemma_scalar_bytes(c);
        lemma_null_bytes(rest);
        assert(bytes == first + encode_utf8(rest));
        if text.contains('\0') {
            let i = choose|i: int| 0 <= i < text.len() && text[i] == '\0';
            if i == 0 {
                assert(bytes[0] == first[0]);
            } else {
                assert(rest[i - 1] == '\0');
                let j = choose|j: int| 0 <= j < encode_utf8(rest).len() && encode_utf8(rest)[j] == 0u8;
                assert(bytes[first.len() + j] == 0u8);
            }
        }
        if bytes.contains(0u8) {
            let j = choose|j: int| 0 <= j < bytes.len() && bytes[j] == 0u8;
            if j < first.len() {
                assert(first[j] == 0u8);
                assert(text[0] == '\0');
            } else {
                assert(encode_utf8(rest)[j - first.len()] == 0u8);
                let i = choose|i: int| 0 <= i < rest.len() && rest[i] == '\0';
                assert(text[i + 1] == '\0');
            }
        }
    }
}

/// What is written as a dictionary file is read as the same text, unless the text holds
/// the null character or starts with a byte order mark.
pub proof fn law_written_dictionary_is_read_back(text: Seq<char>, name: Seq<char>)
    requires
        !text.contains('\0'),
        text.len() > 0 ==> text[0] != '\u{feff}',
    ensures
        dictionary_text(encode_utf8(text), name) == Ok::<Seq<char>, Fault>(text),
{
    broadcast use {vstd::utf8::encode_utf8_valid_utf8, vstd::utf8::encode_utf8_decode_utf8};

    let bytes = encode_utf8(text);
    lemma_null_bytes(text);
    if text.len() > 0 && without_mark(bytes) != bytes {
        vstd::utf8::encode_utf8_first_scalar(text);
        let (x, y, z) = (bytes[0], bytes[1], bytes[2]);
        assert(((0xefu8 & 0x0f) as u32) << 12 | ((0xbbu8 & 0x3f) as u32) << 6 | (0xbfu8 & 0x3f) as u32
            == 0xfeffu32) by (bit_vector);
        assert(vstd::utf8::decode_first_codepoint(bytes) == vstd::utf8::codepoint_width_3(x, y, z));
        vstd::utf8::char_u32_cast(text[0], 0xfeff);
    }
}

/// No line holds what the text does not hold.
proof fn lemma_lines_lack_char(text: Seq<char>, c: char)
    requires
        !text.contains(c),
    ensures
        forall|i: int| 0 <= i < lines(text).len() ==> !(#[trigger] lines(text)[i]).contains(c),
{
    let parts = split_on(text, '\n');
    lemma_split_lacks(text, '\n', c);
    lemma_split_nonempty(text, '\n');
    assert forall|i: int| 0 <= i < lines(text).len() implies !(#[trigger] lines(text)[i]).contains(
        c,
    ) by {
        assert(!parts[i].contains(c));
        if lines(text)[i] != parts[i] {
            assert(lines(text)[i] == parts[i].drop_last());
            assert forall|x: int| 0 <= x < lines(text)[i].len() implies lines(text)[i][x] != c by {
                assert(parts[i].contains(parts[i][x]));
            }
        }
    }
}

/// Written lines hold nothing but what the lines hold, and line feeds.
proof fn lemma_terminated_lacks(all: Seq<Seq<char>>, c: char)
    requires
        c != '\n',
        forall|i: int| 0 <= i < all.len() ==> !(#[trigger] all[i]).contains(c),
    ensures
        !terminated(all).contains(c),
    decreases all.len(),
{
    reveal_strlit("\n");
    if all.len() > 0 {
        let init = all.drop_last();
        assert forall|i: int| 0 <= i < init.len() implies !(#[trigger] init[i]).contains(c) by {
            assert(init[i] == all[i]);
        }
        lemma_terminated_lacks(init, c);
        let last = all.last();
        assert(!all[all.len() - 1].contains(c));
        let front = terminated(init);
        let whole = terminated(all);
        assert forall|x: int| 0 <= x < whole.len() implies whole[x] != c by {
            if x < front.len() {
                assert(front.contains(front[x]));
            } else if x < front.len() + last.len() {
                assert(whole[x] == last[x - front.len()]);
                assert(last.contains(last[x - front.len()]));
            }
        }
    }
}

/// A union holds no character that neither dictionary holds, except line feeds.
proof fn lemma_union_lacks(
    a: Seq<char>,
    b: Seq<char>,
    weigh: spec_fn(Seq<char>) -> Option<u64>,
    c: char,
)
    requires
        c != '\n',
        !a.contains(c),
        !b.contains(c),
        union_parts(a, b) is Ok,
    ensures
        !(merged_text(a, b, weigh)->Ok_0).contains(c),
{
    let (x, y) = (lines(a), lines(b));
    let (m, k) = (header_length(x)->Ok_0, header_length(y)->Ok_0);
    lemma_header_bounds(x);
    lemma_header_bounds(y);
    lemma_lines_lack_char(a, c);
    lemma_lines_lack_char(b, c);
    let (header, body) = union_parts(a, b)->Ok_0;
    let all = entries(body, weighed(weigh, body));
    let n = all.len() as int;
    let united = merged(all, n);
    lemma_firsts(all, n);
    assert forall|i: int| 0 <= i < body.len() implies !(#[trigger] body[i]).contains(c) by {
        if i < x.len() - m {
            assert(body[i] == x[i + m]);
        } else {
            assert(body[i] == y[i - (x.len() - m) + k]);
        }
    }
    assert forall|i: int| 0 <= i < (header + united).len() implies !(#[trigger] (header
        + united)[i]).contains(c) by {
        if i < header.len() {
            assert((header + united)[i] == x[i]);
        } else {
            let first = firsts(all, n)[i - header.len()];
            lemma_kept(all, first, n);
            assert((header + united)[i] == body[kept(all, first, n)]);
        }
    }
    lemma_terminated_lacks(header + united, c);
}

/// Merging two dictionary files again leaves them as they are: what a merge writes to
/// both is read as the text that was written, and the union of that text with itself is
/// the text. The files' texts hold no byte order mark, and are otherwise as for
/// [`law_merging_twice_changes_nothing`].
pub proof fn law_merged_files_stay_as_they_are(
    first: Seq<u8>,
    second: Seq<u8>,
    name: Seq<char>,
    weigh: spec_fn(Seq<char>) -> Option<u64>,
)
    requires
        dictionary_text(first, name) matches Ok(a) && a.len() > 0 && ends_plainly(a)
            && !a.contains('\u{feff}'),
        dictionary_text(second, name) matches Ok(b) && ends_plainly(b) && !b.contains('\u{feff}'),
        merged_text(
            dictionary_text(first, name)->Ok_0,
            dictionary_text(second, name)->Ok_0,
            weigh,
        ) is Ok,
        weigh(""@) is None,
        weigh("---"@) is None,
    ensures
        ({
            let text = merged_text(
                dictionary_text(first, name)->Ok_0,
                dictionary_text(second, name)->Ok_0,
                weigh,
            )->Ok_0;
            &&& dictionary_text(encode_utf8(text), name) == Ok::<Seq<char>, Fault>(text)
            &&& merged_text(text, text, weigh) == Ok::<Seq<char>, Fault>(text)
        }),
{
    broadcast use vstd::utf8::decode_utf8_encode_utf8;

    let (a, b) = (dictionary_text(first, name)->Ok_0, dictionary_text(second, name)->Ok_0);
    lemma_no_null(first, name);
    lemma_no_null(second, name);
    law_merging_twice_changes_nothing(a, b, weigh);
    lemma_union_lacks(a, b, weigh, '\0');
    lemma_union_lacks(a, b, weigh, '\u{feff}');
    let text = merged_text(a, b, weigh)->Ok_0;
    if text.len() > 0 {
        assert(text.contains(text[0]));
    }
    law_written_dictionary_is_read_back(text, name);
}

/// The text of a dictionary file does not hold the null character.
proof fn lemma_no_null(bytes: Seq<u8>, name: Seq<char>)
    requires
        dictionary_text(bytes, name) is Ok,
    ensures
        !(dictionary_text(bytes, name)->Ok_0).contains('\0'),
{
    broadcast use vstd::utf8::decode_utf8_encode_utf8;

    let text = dictionary_text(bytes, name)->Ok_0;
    lemma_null_bytes(text);
    let inner = without_mark(bytes);
    assert(encode_utf8(text) == inner);
    if inner.contains(0u8) {
        let i = choose|i: int| 0 <= i < inner.len() && inner[i] == 0u8;
        if inner.len() == bytes.len() {
            assert(bytes[i] == 0u8);
        } else {
            assert(bytes[i + 3] == 0u8);
        }
    }
}

/// The bits are those of a finite number: the exponent is not the greatest one.
pub open spec fn finite_bits(bits: u64) -> bool {
    bits % 0x8000_0000_0000_0000u64 < 0x7ff0_0000_0000_0000u64
}

/// The weight of a line stands after its last tab, and all that comes before is the key,
/// whatever it holds. A line without a tab, or whose last column denotes no finite number,
/// has no weight.
pub proof fn law_weight_follows_the_last_tab(key: Seq<char>, column: Seq<char>, bits: u64)
    requires
        !column.contains('\t'),
    ensures
        weight_column(key + seq!['\t'] + column) == Some(trim(column)),
        line_weight(key + seq!['\t'] + column, Some(bits)) == (if finite_bits(bits) {
            Some((key, bits))
        } else {
            None
        }),
        line_weight(key + seq!['\t'] + column, None) is None,
        weight_column(column) is None,
        line_weight(column, Some(bits)) is None,
{
    reveal_strlit("\t");
    assert("\t"@ =~= seq!['\t']);
    law_last_part(key, '\t', column);
}

/// Weights are ordered as numbers: of two that are not negative the one with the greater
/// bits is the greater number, of two negative ones that with the smaller bits, and no
/// negative one is greater than one that is not. The two zeros are equal.
pub proof fn law_weights_are_ordered_as_numbers(a: u64, b: u64)
    ensures
        a < 0x8000_0000_0000_0000 && b < 0x8000_0000_0000_0000 ==> (heavier(a, b) <==> a > b),
        a >= 0x8000_0000_0000_0000 && b >= 0x8000_0000_0000_0000 ==> (heavier(a, b) <==> a < b),
        a >= 0x8000_0000_0000_0000 && b < 0x8000_0000_0000_0000 ==> !heavier(a, b),
        a < 0x8000_0000_0000_0000 && b >= 0x8000_0000_0000_0000 ==> (heavier(a, b) <==> !(a == 0
            && b == 0x8000_0000_0000_0000)),
{
}

/// The lines are a header: none, before a line that does not begin one, or those from a
/// line of three dashes to the first line of three dots.
pub open spec fn is_header(header: Seq<Seq<char>>, body: Seq<Seq<char>>) -> bool {
    if header.len() == 0 {
        body.len() > 0 ==> trim(body[0]) != "---"@
    } else {
        &&& trim(header[0]) == "---"@
        &&& trim(header.last()) == "..."@
        &&& forall|i: int| 0 <= i < header.len() - 1 ==> trim(#[trigger] header[i]) != "..."@
    }
}

/// The union has the header of the first dictionary, and the lines of both without their
/// headers, those of the first one first.
pub proof fn law_headers_are_not_united(
    a: Seq<char>,
    b: Seq<char>,
    header: Seq<Seq<char>>,
    body: Seq<Seq<char>>,
    other_header: Seq<Seq<char>>,
    other: Seq<Seq<char>>,
)
    requires
        lines(a) == header + body,
        lines(b) == other_header + other,
        is_header(header, body),
        is_header(other_header, other),
    ensures
        union_parts(a, b) == Ok::<(Seq<Seq<char>>, Seq<Seq<char>>), Fault>((header, body + other)),
{
    lemma_header(header, body);
    lemma_header(other_header, other);
    assert(lines(a).take(header.len() as int) =~= header);
    assert(lines(a).skip(header.len() as int) =~= body);
    assert(lines(b).skip(other_header.len() as int) =~= other);
}

proof fn lemma_header(header: Seq<Seq<char>>, body: Seq<Seq<char>>)
    requires
        is_header(header, body),
    ensures
        header_length(header + body) == Ok::<int, Fault>(header.len() as int),
{
    let all = header + body;
    if header.len() > 0 {
        assert(all[0] == header[0]);
        lemma_header_from(header, body, 0);
    } else {
        assert(all =~= body);
    }
}

proof fn lemma_header_from(header: Seq<Seq<char>>, body: Seq<Seq<char>>, i: int)
    requires
        0 <= i < header.len(),
        trim(header.last()) == "..."@,
        forall|j: int| 0 <= j < header.len() - 1 ==> trim(#[trigger] header[j]) != "..."@,
    ensures
        header_stop(header + body, i) == Some(header.len() - 1),
    decreases header.len() - i,
{
    assert((header + body)[i] == header[i]);
    if i < header.len() - 1 {
        lemma_header_from(header, body, i + 1);
    }
}

/// A header that is begun has to end: without a line of three dots there is no union.
pub proof fn law_unended_header_is_refused(a: Seq<char>, b: Seq<char>)
    requires
        ({
            let all = lines(a);
            &&& all.len() > 0
            &&& trim(all[0]) == "---"@
            &&& forall|i: int| 0 <= i < all.len() ==> trim(#[trigger] all[i]) != "..."@
        }),
    ensures
        union_parts(a, b) == Err::<(Seq<Seq<char>>, Seq<Seq<char>>), Fault>(Fault::HeaderEnd),
        header_length(lines(b)) is Ok ==> union_parts(b, a) == Err::<
            (Seq<Seq<char>>, Seq<Seq<char>>),
            Fault,
        >(Fault::HeaderEnd),
{
    lemma_no_header_stop(lines(a), 0);
}

proof fn lemma_no_header_stop(all: Seq<Seq<char>>, from: int)
    requires
        0 <= from,
        forall|i: int| 0 <= i < all.len() ==> trim(#[trigger] all[i]) != "..."@,
    ensures
        header_stop(all, from) is None,
    decreases all.len() - from,
{
    if from < all.len() {
        lemma_no_header_stop(all, from + 1);
    }
}

/// Of two lines of the bodies with one key, the union of the texts never holds the one
/// whose number is smaller: its text is written of the header and of lines of which none
/// is that one.
pub proof fn law_lighter_line_is_left_out(
    a: Seq<char>,
    b: Seq<char>,
    weigh: spec_fn(Seq<char>) -> Option<u64>,
    i: int,
    j: int,
    key: Seq<char>,
    light: Seq<char>,
    heavy: Seq<char>,
) -> (res: Seq<Seq<char>>)
    requires
        union_parts(a, b) is Ok,
        0 <= i < (union_parts(a, b)->Ok_0).1.len(),
        0 <= j < (union_parts(a, b)->Ok_0).1.len(),
        !light.contains('\t'),
        !heavy.contains('\t'),
        (union_parts(a, b)->Ok_0).1[i] == key + seq!['\t'] + light,
        (union_parts(a, b)->Ok_0).1[j] == key + seq!['\t'] + heavy,
        weigh(trim(light)) matches Some(x) && finite_bits(x),
        weigh(trim(heavy)) matches Some(y) && finite_bits(y),
        heavier(weigh(trim(heavy))->0, weigh(trim(light))->0),
    ensures
        merged_text(a, b, weigh) == Ok::<Seq<char>, Fault>(
            terminated((union_parts(a, b)->Ok_0).0 + res),
        ),
        !res.contains(key + seq!['\t'] + light),
{
    let (header, body) = union_parts(a, b)->Ok_0;
    let all = entries(body, weighed(weigh, body));
    let n = all.len() as int;
    let res = merged(all, n);
    let (x, y) = (weigh(trim(light))->0, weigh(trim(heavy))->0);
    law_weight_follows_the_last_tab(key, light, x);
    law_weight_follows_the_last_tab(key, heavy, y);
    assert(all[j].weight == Some((key, y)));
    if res.contains(body[i]) {
        let q = choose|q: int| 0 <= q < res.len() && res[q] == body[i];
        lemma_firsts(all, n);
        let first = firsts(all, n)[q];
        lemma_kept(all, first, n);
        let k = kept(all, first, n);
        assert(union_entries(all)[q] == all[k]);
        assert(all[k].line == body[i]);
        assert(all[k].weight == Some((key, x)));
        law_union_keeps_the_heaviest(all, j, q);
    }
    res
}

/// A line without a weight stands in the union once, and a line with one has a line of its
/// key there; every line of the union is one of the bodies.
pub proof fn law_no_record_is_lost(
    a: Seq<char>,
    b: Seq<char>,
    weigh: spec_fn(Seq<char>) -> Option<u64>,
) -> (res: Seq<Seq<char>>)
    requires
        union_parts(a, b) is Ok,
    ensures
        merged_text(a, b, weigh) == Ok::<Seq<char>, Fault>(
            terminated((union_parts(a, b)->Ok_0).0 + res),
        ),
        forall|p: int|
            0 <= p < res.len() ==> (union_parts(a, b)->Ok_0).1.contains(#[trigger] res[p]),
        forall|p: int, q: int| 0 <= p < q < res.len() ==> #[trigger] res[p] != #[trigger] res[q],
        ({
            let body = (union_parts(a, b)->Ok_0).1;
            forall|i: int|
                0 <= i < body.len() && line_weight(
                    #[trigger] body[i],
                    weighed(weigh, body)[i],
                ) is None ==> res.contains(body[i])
        }),
{
    let (header, body) = union_parts(a, b)->Ok_0;
    let all = entries(body, weighed(weigh, body));
    let n = all.len() as int;
    let res = merged(all, n);
    let base = union_entries(all);
    lemma_firsts(all, n);
    assert forall|p: int| 0 <= p < res.len() implies body.contains(#[trigger] res[p]) && base[p].line
        == res[p] && all.contains(base[p]) by {
        let first = firsts(all, n)[p];
        lemma_kept(all, first, n);
        assert(res[p] == body[kept(all, first, n)]);
        assert(base[p] == all[kept(all, first, n)]);
    }
    assert forall|p: int, q: int| 0 <= p < q < res.len() implies #[trigger] res[p]
        != #[trigger] res[q] by {
        law_union_has_no_duplicates(all, p, q);
        let x = choose|x: int| 0 <= x < all.len() && all[x] == base[p];
        let y = choose|y: int| 0 <= y < all.len() && all[y] == base[q];
        if res[p] == res[q] {
            assert(body[x] == body[y]);
            assert(all[x].weight == all[y].weight);
        }
    }
    assert forall|i: int|
        0 <= i < body.len() && line_weight(
            #[trigger] body[i],
            weighed(weigh, body)[i],
        ) is None implies res.contains(body[i]) by {
        law_union_covers_both_bodies(all, i);
        let q = choose|q: int| 0 <= q < base.len() && #[trigger] same_record(base[q], all[i]);
        assert(base[q].line == res[q]);
        assert(all[i].weight is None);
        assert(res[q] == body[i]);
    }
    res
}

/// A byte order mark in front makes no difference.
pub proof fn law_byte_order_mark_is_passed_over(text: Seq<char>, name: Seq<char>)
    requires
        !text.contains('\0'),
    ensures
        dictionary_text(seq![0xefu8, 0xbbu8, 0xbfu8] + encode_utf8(text), name) == Ok::<
            Seq<char>,
            Fault,
        >(text),
{
    broadcast use {vstd::utf8::encode_utf8_valid_utf8, vstd::utf8::encode_utf8_decode_utf8};

    let mark = seq![0xefu8, 0xbbu8, 0xbfu8];
    let bytes = mark + encode_utf8(text);
    lemma_null_bytes(text);
    assert(bytes.skip(3) =~= encode_utf8(text));
    assert forall|i: int| 0 <= i < bytes.len() implies bytes[i] != 0u8 by {
        if i >= 3 {
            assert(encode_utf8(text).contains(encode_utf8(text)[i - 3]));
        }
    }
}

/// A file that holds a null byte is no dictionary, and neither is one that is not UTF-8.
pub proof fn law_other_files_are_refused(bytes: Seq<u8>, name: Seq<char>)
    ensures
        bytes.contains(0u8) ==> dictionary_text(bytes, name) == Err::<Seq<char>, Fault>(
            Fault::BinaryDictionary(name),
        ),
        !bytes.contains(0u8) && !valid_utf8(bytes) && !(bytes.len() >= 3 && bytes.take(3) == seq![
            0xefu8,
            0xbbu8,
            0xbfu8,
        ]) ==> dictionary_text(bytes, name) == Err::<Seq<char>, Fault>(Fault::DictionaryUtf8(name)),
{
    if bytes.len() >= 3 && bytes[0] == 0xefu8 && bytes[1] == 0xbbu8 && bytes[2] == 0xbfu8 {
        assert(bytes.take(3) =~= seq![0xefu8, 0xbbu8, 0xbfu8]);
    }
}

} // verus!
