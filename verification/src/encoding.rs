//! How the names in a relative path are written in a URL.
use vstd::prelude::*;

use vstd::utf8::{decode_utf8, encode_utf8, valid_utf8};

use crate::text::{
    join, join_texts, law_replacing_goes_by_characters, lemma_replaced_append,
    lemma_replaced_char, lemma_replaced_join, lemma_replaced_none, lemma_split_join, replace_char,
    replaced, split_on, split_text, views,
};

verus! {

/// A byte that a URL shows as the character it stands for.
pub open spec fn unreserved(b: u8) -> bool {
    b == 0x2a || b == 0x2d || b == 0x2e || 0x30 <= b <= 0x39 || 0x41 <= b <= 0x5a || b == 0x5f
        || 0x61 <= b <= 0x7a
}

/// The upper-case hexadecimal digit for a number below sixteen.
pub open spec fn hex_digit(n: int) -> char {
    if n < 10 {
        (0x30 + n) as char
    } else {
        (0x37 + n) as char
    }
}

/// A byte as a form writes it: as it is, as a plus sign for a space, or as a percent
/// sign and two hexadecimal digits.
pub open spec fn form_byte(b: u8) -> Seq<char> {
    if unreserved(b) {
        seq![b as char]
    } else if b == 0x20 {
        seq!['+']
    } else {
        seq!['%', hex_digit(b as int / 16), hex_digit(b as int % 16)]
    }
}

/// Bytes as a form writes them.
pub open spec fn form_bytes(bytes: Seq<u8>) -> Seq<char>
    decreases bytes.len(),
{
    if bytes.len() == 0 {
        Seq::empty()
    } else {
        form_byte(bytes[0]) + form_bytes(bytes.skip(1))
    }
}

/// `form_urlencoded::byte_serialize`, collected: it keeps the bytes of `*-.0-9A-Z_a-z`,
/// writes a space as a plus sign, and any other byte as a percent sign and two
/// hexadecimal digits.
#[verifier::external_body]
fn form_encode(text: &str) -> (res: String)
    ensures
        res@ == form_bytes(encode_utf8(text@)),
{
    url::form_urlencoded::byte_serialize(text.as_bytes()).collect::<String>()
}

/// A name in a path as a URL shows it.
pub open spec fn encoded_name(name: Seq<char>) -> Seq<char> {
    replaced(form_bytes(encode_utf8(name)), '+', "%20"@)
}

/// The names among the pieces between slashes, as a URL shows them.
pub open spec fn encoded_names(pieces: Seq<Seq<char>>) -> Seq<Seq<char>>
    decreases pieces.len(),
{
    if pieces.len() == 0 {
        Seq::empty()
    } else if pieces.last().len() == 0 {
        encoded_names(pieces.drop_last())
    } else {
        encoded_names(pieces.drop_last()).push(encoded_name(pieces.last()))
    }
}

/// A relative path as a URL shows it. Backslashes count as slashes, and empty names are
/// left out.
pub open spec fn encoded_path(relative: Seq<char>) -> Seq<char> {
    join(encoded_names(split_on(replaced(relative, '\\', "/"@), '/')), "/"@)
}

/// The reference to a file or a folder below a base; that of a folder ends in a slash.
pub open spec fn encoded_reference(relative: Seq<char>, directory: bool) -> Seq<char> {
    if directory && encoded_path(relative).len() > 0 {
        encoded_path(relative) + "/"@
    } else {
        encoded_path(relative)
    }
}

/// Writes a relative path as a URL shows it.
pub fn encode_reference(relative: &str, directory: bool) -> (res: String)
    ensures
        res@ == encoded_reference(relative@, directory),
{
    let slashed = replace_char(relative, '\\', "/");
    let pieces = split_text(slashed.as_str(), '/');
    let ghost all = views(pieces@);
    let mut names: Vec<String> = Vec::new();
    let mut i: usize = 0;
    while i < pieces.len()
        invariant
            i <= pieces@.len(),
            all == views(pieces@),
            views(names@) == encoded_names(all.take(i as int)),
        decreases pieces@.len() - i,
    {
        assert(all.take(i + 1).drop_last() =~= all.take(i as int));
        assert(all.take(i + 1).last() == pieces@[i as int]@);
        if !pieces[i].as_str().is_empty() {
            let form = form_encode(pieces[i].as_str());
            let name = replace_char(form.as_str(), '+', "%20");
            let ghost before = names@;
            let ghost shown = name@;
            names.push(name);
            assert(views(names@) =~= views(before).push(shown));
        }
        i = i + 1;
    }
    assert(all.take(i as int) =~= all);
    let mut res = join_texts(&names, "/");
    if directory && !res.as_str().is_empty() {
        res.append("/");
    }
    res
}

/// The value of a hexadecimal digit.
pub open spec fn hex_value(b: u8) -> Option<int> {
    if 0x30 <= b <= 0x39 {
        Some(b - 0x30)
    } else if 0x41 <= b <= 0x46 {
        Some(b - 0x37)
    } else if 0x61 <= b <= 0x66 {
        Some(b - 0x57)
    } else {
        None
    }
}

/// The bytes with each percent sign and two hexadecimal digits made one byte.
pub open spec fn percent_decoded(bytes: Seq<u8>) -> Seq<u8>
    decreases bytes.len(),
{
    if bytes.len() == 0 {
        bytes
    } else if bytes.len() >= 3 && bytes[0] == 0x25 && hex_value(bytes[1]) is Some && hex_value(
        bytes[2],
    ) is Some {
        seq![(hex_value(bytes[1])->0 * 16 + hex_value(bytes[2])->0) as u8] + percent_decoded(
            bytes.skip(3),
        )
    } else {
        seq![bytes[0]] + percent_decoded(bytes.skip(1))
    }
}

/// What `String::from_utf8_lossy` makes of bytes.
pub uninterp spec fn utf8_lossy(bytes: Seq<u8>) -> Seq<char>;

/// `String::from_utf8_lossy`: the text of well-formed UTF-8, and of other bytes a text
/// with replacement characters.
#[verifier::external_body]
pub(crate) fn lossy_text(bytes: &Vec<u8>) -> (res: String)
    ensures
        res@ == utf8_lossy(bytes@),
        valid_utf8(bytes@) ==> res@ == decode_utf8(bytes@),
{
    String::from_utf8_lossy(bytes).into_owned()
}

/// `PercentDecode::decode_utf8_lossy` of `percent_decode_str`: the percent-decoded bytes
/// as text.
#[verifier::external_body]
fn percent_decode(text: &str) -> (res: String)
    ensures
        res@ == utf8_lossy(percent_decoded(encode_utf8(text@))),
        valid_utf8(percent_decoded(encode_utf8(text@))) ==> res@ == decode_utf8(
            percent_decoded(encode_utf8(text@)),
        ),
{
    percent_encoding::percent_decode_str(text).decode_utf8_lossy().into_owned()
}

/// The text of bytes: what they encode, or else what is made of ill-formed bytes.
pub open spec fn shown_text(bytes: Seq<u8>) -> Seq<char> {
    if valid_utf8(bytes) {
        decode_utf8(bytes)
    } else {
        utf8_lossy(bytes)
    }
}

/// The text that a part of a URL's path stands for.
pub open spec fn decoded_path(text: Seq<char>) -> Seq<char> {
    shown_text(percent_decoded(encode_utf8(text)))
}

/// Reads a part of a URL's path.
pub fn decode_path(text: &str) -> (res: String)
    ensures
        res@ == decoded_path(text@),
{
    percent_decode(text)
}

proof fn lemma_utf8_append(a: Seq<char>, b: Seq<char>)
    ensures
        encode_utf8(a + b) == encode_utf8(a) + encode_utf8(b),
    decreases a.len(),
{
    if a.len() == 0 {
        assert(a + b =~= b);
        assert(encode_utf8(a) + encode_utf8(b) =~= encode_utf8(b));
    } else {
        lemma_utf8_append(a.drop_first(), b);
        assert((a + b).drop_first() =~= a.drop_first() + b);
        let first = vstd::utf8::encode_scalar(a[0] as u32);
        assert(first + (encode_utf8(a.drop_first()) + encode_utf8(b)) =~= first + encode_utf8(
            a.drop_first(),
        ) + encode_utf8(b));
    }
}

/// One byte, as a path shows it, is decoded to itself.
proof fn lemma_byte_decoded(b: u8, rest: Seq<u8>)
    ensures
        percent_decoded(encode_utf8(replaced(form_byte(b), '+', "%20"@)) + rest) == seq![b]
            + percent_decoded(rest),
{
    broadcast use vstd::utf8::is_ascii_chars_encode_utf8;

    reveal_strlit("%20");
    let shown = replaced(form_byte(b), '+', "%20"@);
    if unreserved(b) {
        lemma_replaced_char(b as char, '+', "%20"@);
        assert(shown =~= seq![b as char]);
        assert(vstd::utf8::is_ascii_chars(shown));
        assert(encode_utf8(shown) =~= seq![b]);
        let all = encode_utf8(shown) + rest;
        assert(all.skip(1) =~= rest);
    } else if b == 0x20 {
        lemma_replaced_char('+', '+', "%20"@);
        assert(vstd::utf8::is_ascii_chars(shown));
        assert(encode_utf8(shown) =~= seq![0x25u8, 0x32u8, 0x30u8]);
        let all = encode_utf8(shown) + rest;
        assert(all.skip(3) =~= rest);
    } else {
        let high = hex_digit(b as int / 16);
        let low = hex_digit(b as int % 16);
        assert(form_byte(b) =~= seq!['%', high, low]);
        assert forall|i: int| 0 <= i < 3 implies form_byte(b)[i] != '+' by {}
        lemma_replaced_none(form_byte(b), '+', "%20"@);
        assert(vstd::utf8::is_ascii_chars(shown));
        assert(encode_utf8(shown) =~= seq![0x25u8, high as u8, low as u8]);
        let all = encode_utf8(shown) + rest;
        assert(all.skip(3) =~= rest);
        assert(hex_value(all[1]) == Some(b as int / 16));
        assert(hex_value(all[2]) == Some(b as int % 16));
    }
}

proof fn lemma_bytes_decoded(bytes: Seq<u8>, rest: Seq<u8>)
    ensures
        percent_decoded(encode_utf8(replaced(form_bytes(bytes), '+', "%20"@)) + rest) == bytes
            + percent_decoded(rest),
    decreases bytes.len(),
{
    if bytes.len() == 0 {
        assert(encode_utf8(replaced(form_bytes(bytes), '+', "%20"@)) + rest =~= rest);
        assert(bytes + percent_decoded(rest) =~= percent_decoded(rest));
    } else {
        let tail = bytes.skip(1);
        lemma_replaced_append(form_byte(bytes[0]), form_bytes(tail), '+', "%20"@);
        let first = replaced(form_byte(bytes[0]), '+', "%20"@);
        let others = replaced(form_bytes(tail), '+', "%20"@);
        lemma_utf8_append(first, others);
        assert(encode_utf8(first) + encode_utf8(others) + rest =~= encode_utf8(first) + (
        encode_utf8(others) + rest));
        lemma_byte_decoded(bytes[0], encode_utf8(others) + rest);
        lemma_bytes_decoded(tail, rest);
        assert(seq![bytes[0]] + (tail + percent_decoded(rest)) =~= bytes + percent_decoded(rest));
    }
}

/// A name, as a path shows it, is decoded to its own bytes.
pub proof fn lemma_name_decoded(name: Seq<char>)
    ensures
        percent_decoded(encode_utf8(encoded_name(name))) == encode_utf8(name),
{
    let none = Seq::<u8>::empty();
    lemma_bytes_decoded(encode_utf8(name), none);
    assert(encode_utf8(encoded_name(name)) + none =~= encode_utf8(encoded_name(name)));
    assert(encode_utf8(name) + percent_decoded(none) =~= encode_utf8(name));
}

/// All pieces are names.
pub open spec fn nonempty_names(list: Seq<Seq<char>>) -> bool {
    forall|i: int| 0 <= i < list.len() ==> (#[trigger] list[i]).len() > 0
}

proof fn lemma_encoded_names(list: Seq<Seq<char>>)
    requires
        nonempty_names(list),
    ensures
        encoded_names(list) == list.map_values(|name: Seq<char>| encoded_name(name)),
    decreases list.len(),
{
    if list.len() > 0 {
        let init = list.drop_last();
        assert(list[list.len() - 1].len() > 0);
        assert forall|i: int| 0 <= i < init.len() implies (#[trigger] init[i]).len() > 0 by {
            assert(init[i] == list[i]);
        }
        lemma_encoded_names(init);
    }
    assert(encoded_names(list) =~= list.map_values(|name: Seq<char>| encoded_name(name)));
}

proof fn lemma_joined_decoded(list: Seq<Seq<char>>, rest: Seq<u8>)
    requires
        list.len() > 0,
        nonempty_names(list),
    ensures
        percent_decoded(encode_utf8(join(encoded_names(list), "/"@)) + rest) == encode_utf8(
            join(list, "/"@),
        ) + percent_decoded(rest),
    decreases list.len(),
{
    broadcast use vstd::utf8::is_ascii_chars_encode_utf8;

    reveal_strlit("/");
    lemma_encoded_names(list);
    let last = list.last();
    let shown = encoded_names(list);
    assert(shown.last() == encoded_name(last));
    lemma_bytes_decoded(encode_utf8(last), rest);
    if list.len() == 1 {
        assert(shown[0] == encoded_name(last));
    } else {
        let init = list.drop_last();
        assert forall|i: int| 0 <= i < init.len() implies (#[trigger] init[i]).len() > 0 by {
            assert(init[i] == list[i]);
        }
        lemma_encoded_names(init);
        assert(shown.drop_last() =~= encoded_names(init));
        let slash = "/"@;
        assert(vstd::utf8::is_ascii_chars(slash));
        assert(encode_utf8(slash) =~= seq![0x2fu8]);
        let head = join(encoded_names(init), slash);
        lemma_utf8_append(head + slash, encoded_name(last));
        lemma_utf8_append(head, slash);
        let more = seq![0x2fu8] + (encode_utf8(encoded_name(last)) + rest);
        assert(encode_utf8(join(shown, slash)) + rest =~= encode_utf8(head) + more);
        lemma_joined_decoded(init, more);
        assert(more.skip(1) =~= encode_utf8(encoded_name(last)) + rest);
        assert(percent_decoded(more) == seq![0x2fu8] + percent_decoded(more.skip(1)));
        let plain = join(init, slash);
        lemma_utf8_append(plain + slash, last);
        lemma_utf8_append(plain, slash);
        assert(encode_utf8(plain) + (seq![0x2fu8] + (encode_utf8(last) + percent_decoded(rest)))
            =~= encode_utf8(join(list, slash)) + percent_decoded(rest));
    }
}

/// Reading what a path looks like in a URL gives the path back.
pub proof fn law_encoded_path_is_decoded(list: Seq<Seq<char>>)
    requires
        list.len() > 0,
        nonempty_names(list),
    ensures
        decoded_path(join(encoded_names(list), "/"@)) == join(list, "/"@),
        decoded_path(join(encoded_names(list), "/"@) + "/"@) == join(list, "/"@) + "/"@,
{
    broadcast use vstd::utf8::is_ascii_chars_encode_utf8;
    broadcast use {vstd::utf8::encode_utf8_valid_utf8, vstd::utf8::encode_utf8_decode_utf8};

    reveal_strlit("/");
    let none = Seq::<u8>::empty();
    let shown = join(encoded_names(list), "/"@);
    let plain = join(list, "/"@);
    lemma_joined_decoded(list, none);
    assert(encode_utf8(shown) + none =~= encode_utf8(shown));
    assert(encode_utf8(plain) + percent_decoded(none) =~= encode_utf8(plain));
    let slash = seq![0x2fu8];
    assert(vstd::utf8::is_ascii_chars("/"@));
    assert(encode_utf8("/"@) =~= slash);
    lemma_joined_decoded(list, slash);
    lemma_utf8_append(shown, "/"@);
    lemma_utf8_append(plain, "/"@);
    assert(slash.skip(1) =~= none);
    assert(percent_decoded(slash) =~= slash);
}

/// A folder's reference is that of a file of the same name with a slash at its end.
pub proof fn law_folder_reference_ends_in_a_slash(relative: Seq<char>)
    ensures
        encoded_reference(relative, false) == encoded_path(relative),
        encoded_path(relative).len() > 0 ==> encoded_reference(relative, true) == encoded_path(
            relative,
        ) + seq!['/'],
        encoded_path(relative).len() == 0 ==> encoded_reference(relative, true).len() == 0,
{
    reveal_strlit("/");
    assert("/"@ =~= seq!['/']);
}

/// A backslash in a path means a slash, and empty pieces mean nothing.
pub proof fn law_empty_pieces_are_left_out(pieces: Seq<Seq<char>>)
    requires
        pieces.len() > 0,
        forall|i: int|
            0 <= i < pieces.len() ==> !(#[trigger] pieces[i]).contains('/') && !pieces[i].contains(
                '\\',
            ),
    ensures
        encoded_path(join(pieces, seq!['/'])) == join(
            encoded_names(pieces.filter(|piece: Seq<char>| piece.len() > 0)),
            "/"@,
        ),
        encoded_path(join(pieces, seq!['\\'])) == encoded_path(join(pieces, seq!['/'])),
{
    reveal_strlit("/");
    assert("/"@ =~= seq!['/']);
    lemma_replaced_join(pieces, '\\', "/"@);
    lemma_slashes_stay(pieces);
    lemma_split_join(pieces, '/');
    lemma_encoded_filled(pieces);
}

proof fn lemma_slashes_stay(pieces: Seq<Seq<char>>)
    requires
        forall|i: int| 0 <= i < pieces.len() ==> !(#[trigger] pieces[i]).contains('\\'),
    ensures
        replaced(join(pieces, seq!['/']), '\\', "/"@) == join(pieces, seq!['/']),
    decreases pieces.len(),
{
    reveal_strlit("/");
    if pieces.len() > 0 {
        assert(!pieces[pieces.len() - 1].contains('\\'));
        lemma_replaced_none(pieces.last(), '\\', "/"@);
    }
    if pieces.len() > 1 {
        let init = pieces.drop_last();
        assert forall|i: int| 0 <= i < init.len() implies !(#[trigger] init[i]).contains('\\') by {
            assert(init[i] == pieces[i]);
        }
        lemma_slashes_stay(init);
        let head = join(init, seq!['/']);
        law_replacing_goes_by_characters(head + seq!['/'], pieces.last(), '\\', "/"@);
        law_replacing_goes_by_characters(head, seq!['/'], '\\', "/"@);
        assert(replaced(seq!['/'], '\\', "/"@) == seq!['/']);
    }
}

proof fn lemma_encoded_filled(pieces: Seq<Seq<char>>)
    ensures
        encoded_names(pieces) == encoded_names(
            pieces.filter(|piece: Seq<char>| piece.len() > 0),
        ),
    decreases pieces.len(),
{
    reveal(Seq::filter);
    let keep = |piece: Seq<char>| piece.len() > 0;
    if pieces.len() > 0 {
        let init = pieces.drop_last();
        lemma_encoded_filled(init);
        if keep(pieces.last()) {
            let all = pieces.filter(keep);
            assert(all == init.filter(keep).push(pieces.last()));
            assert(all.drop_last() =~= init.filter(keep));
        }
    }
}

/// A percent sign and two hexadecimal digits, in whatever case, stand for one byte; any
/// other byte stands for itself.
pub proof fn law_percent_signs_are_decoded(high: u8, low: u8, byte: u8, rest: Seq<u8>)
    ensures
        hex_value(high) is Some && hex_value(low) is Some ==> percent_decoded(
            seq![0x25u8, high, low] + rest,
        ) == seq![(16 * hex_value(high)->0 + hex_value(low)->0) as u8] + percent_decoded(rest),
        byte != 0x25 ==> percent_decoded(seq![byte] + rest) == seq![byte] + percent_decoded(rest),
        percent_decoded(Seq::empty()) == Seq::<u8>::empty(),
{
    let coded = seq![0x25u8, high, low] + rest;
    assert(coded.skip(3) =~= rest);
    let plain = seq![byte] + rest;
    assert(plain.skip(1) =~= rest);
}

/// The hexadecimal digits and their values.
pub proof fn law_hexadecimal_digits(n: int)
    requires
        0 <= n < 16,
    ensures
        hex_value((if n < 10 { 0x30 + n } else { 0x41 + n - 10 }) as u8) == Some(n),
        hex_value((if n < 10 { 0x30 + n } else { 0x61 + n - 10 }) as u8) == Some(n),
        hex_value(0x2f) is None,
        hex_value(0x3a) is None,
        hex_value(0x40) is None,
        hex_value(0x47) is None,
        hex_value(0x60) is None,
        hex_value(0x67) is None,
{
}

/// Letters, digits and four marks stand for themselves; a blank becomes a plus sign, and
/// any other byte a percent sign and its two hexadecimal digits.
pub proof fn law_bytes_are_encoded(b: u8)
    ensures
        ({
            let c = b as char;
            let plain = 'a' <= c <= 'z' || 'A' <= c <= 'Z' || '0' <= c <= '9' || c == '*' || c == '-'
                || c == '.' || c == '_';
            &&& plain ==> form_byte(b) == seq![c]
            &&& c == ' ' ==> form_byte(b) == seq!['+']
            &&& !plain && c != ' ' ==> {
                &&& form_byte(b).len() == 3
                &&& form_byte(b)[0] == '%'
                &&& hex_value(form_byte(b)[1] as u8) == Some(b as int / 16)
                &&& hex_value(form_byte(b)[2] as u8) == Some(b as int % 16)
            }
        }),
{
}

/// Only the digits and the letters from A to F, in either case, are hexadecimal digits.
pub proof fn law_other_characters_are_no_digits(b: u8)
    ensures
        hex_value(b) is Some <==> ({
            let c = b as char;
            '0' <= c <= '9' || 'a' <= c <= 'f' || 'A' <= c <= 'F'
        }),
{
}

} // verus!
