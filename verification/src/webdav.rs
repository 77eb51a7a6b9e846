//! The WebDAV folder: addresses in it, requests to it and what its answers mean.
use vstd::prelude::*;

use vstd::utf8::encode_utf8;

use crate::encoding::{
    decode_path, decoded_path, encode_reference, encoded_name, encoded_names, encoded_path,
    encoded_reference, form_byte, form_bytes, law_encoded_path_is_decoded, lemma_name_decoded,
    lossy_text, nonempty_names, percent_decoded, shown_text, unreserved,
};
use crate::error::{failure, outcome, Fault, SyncError};
use crate::listing::{listed_views, listing, parse_listing, Listed, ListedView};
use crate::paths::{
    accepted, all_plain, below, inside, law_path_of_names_is_read, law_steps_up_are_refused,
    names_below, plain_part, portable, relative_parts, simple_name, steps_up,
};
use crate::text::{
    chars_of, join, law_last_part, lemma_replaced_append, lemma_replaced_char,
    lemma_replaced_join, lemma_replaced_none, lemma_split_join, lemma_split_nonempty,
    optional_view, replace_char, replaced, same_text, split_last, split_on, split_text_last,
    strip_end, strip_start, strip_text_end, strip_text_start, text_of, trim, trim_text, views,
};

verus! {

/// A file in the WebDAV folder.
#[derive(Debug, PartialEq, Eq)]
pub struct RemoteFile {
    /// Its path below the folder.
    pub relative: String,
    /// When it was changed, in seconds since 1970, if the server says so.
    pub modified: Option<u64>,
}

/// What a [`RemoteFile`] says.
pub struct RemoteFileView {
    pub relative: Seq<char>,
    pub modified: Option<u64>,
}

impl View for RemoteFile {
    type V = RemoteFileView;

    open spec fn view(&self) -> RemoteFileView {
        RemoteFileView { relative: self.relative@, modified: self.modified }
    }
}

/// What a list of files says.
pub open spec fn remote_views(files: Seq<RemoteFile>) -> Seq<RemoteFileView> {
    files.map_values(|file: RemoteFile| file@)
}

/// A WebDAV folder and the account that uses it.
pub struct WebDav {
    /// The folder's address; it ends in a slash.
    pub root: String,
    /// The path in the address.
    pub path: String,
    /// The account's name.
    pub username: String,
    /// The account's password.
    pub password: String,
}

/// What a [`WebDav`] says.
pub struct WebDavView {
    pub root: Seq<char>,
    pub path: Seq<char>,
    pub username: Seq<char>,
    pub password: Seq<char>,
}

impl View for WebDav {
    type V = WebDavView;

    open spec fn view(&self) -> WebDavView {
        WebDavView {
            root: self.root@,
            path: self.path@,
            username: self.username@,
            password: self.password@,
        }
    }
}

/// The error of a text that is no URL.
#[verifier::external_type_specification]
#[verifier::external_body]
pub struct ExParseError(url::ParseError);

/// The URL that `Url::parse` makes of a text, and the URL's path.
pub uninterp spec fn url_parsed(text: Seq<char>) -> Option<(Seq<char>, Seq<char>)>;

/// The URL that `Url::join` makes of a reference and the URL `base`, and the URL's path.
pub uninterp spec fn url_joined(base: Seq<char>, reference: Seq<char>) -> Option<
    (Seq<char>, Seq<char>),
>;

/// What a function that returns a URL and its path, or fails, has returned.
pub open spec fn url_view(res: Result<(String, String), url::ParseError>) -> Option<
    (Seq<char>, Seq<char>),
> {
    match res {
        Ok((address, path)) => Some((address@, path@)),
        Err(_) => None,
    }
}

/// The URL is one of the web.
pub open spec fn web_url(url: Seq<char>) -> bool {
    ||| url.len() >= 7 && url.take(7) == "http://"@
    ||| url.len() >= 8 && url.take(8) == "https://"@
}

/// The path of the URL that a text is.
pub open spec fn url_path(url: Seq<char>) -> Seq<char> {
    (url_parsed(url)->0).1
}

/// The URL of a folder on the web, as the parser itself writes it: nothing follows its
/// path, which ends in a slash.
pub open spec fn web_folder(url: Seq<char>) -> bool {
    &&& url_parsed(url) == Some((url, url_path(url)))
    &&& web_url(url)
    &&& !url.contains('?')
    &&& !url.contains('#')
    &&& url_path(url).len() > 0
    &&& url_path(url).last() == '/'
}

/// A piece of a path that a URL shows as it is: it holds only characters that a URL does
/// not encode, or percent signs, and does not stand for `.` or `..`.
pub open spec fn plain_segment(segment: Seq<char>) -> bool {
    &&& segment.len() > 0
    &&& forall|i: int|
        0 <= i < segment.len() ==> #[trigger] segment[i] == '%' || (segment[i] as u32) < 128
            && unreserved(segment[i] as u8)
    &&& percent_decoded(encode_utf8(segment)) != seq![0x2eu8]
    &&& percent_decoded(encode_utf8(segment)) != seq![0x2eu8, 0x2eu8]
}

/// A relative reference of which all pieces between slashes are shown as they are.
pub open spec fn plain_reference(reference: Seq<char>) -> bool {
    forall|i: int|
        0 <= i < split_on(reference, '/').len() ==> plain_segment(
            #[trigger] split_on(reference, '/')[i],
        )
}

/// The folder's address is that of a folder on the web.
pub open spec fn own_folder(dav: WebDavView) -> bool {
    web_folder(dav.root) && url_path(dav.root) == dav.path
}

/// The path of a folder whose pieces a URL shows as they are.
pub open spec fn plain_folder(path: Seq<char>) -> bool {
    ||| path == "/"@
    ||| path.len() > 2 && path[0] == '/' && path.last() == '/' && plain_reference(
        path.subrange(1, path.len() - 1),
    )
}

/// A piece of a host's name that a URL shows as it is: lower-case letters, digits and
/// hyphens. It starts with a letter, does not end in a hyphen, and does not have the two
/// hyphens that mark an encoded name.
pub open spec fn plain_label(label: Seq<char>) -> bool {
    &&& label.len() > 0
    &&& 'a' <= label[0] <= 'z'
    &&& forall|i: int|
        0 <= i < label.len() ==> 'a' <= #[trigger] label[i] <= 'z' || '0' <= label[i] <= '9'
            || label[i] == '-'
    &&& label.last() != '-'
    &&& label.len() >= 4 ==> label[2] != '-' || label[3] != '-'
}

/// A host's name of which all pieces between dots are shown as they are.
pub open spec fn plain_host(host: Seq<char>) -> bool {
    forall|i: int|
        0 <= i < split_on(host, '.').len() ==> plain_label(#[trigger] split_on(host, '.')[i])
}

/// What follows the scheme of an address on the web.
pub open spec fn after_scheme(url: Seq<char>) -> Seq<char> {
    if url.take(7) == "http://"@ {
        url.skip(7)
    } else {
        url.skip(8)
    }
}

/// The host in an address on the web: what stands before the next slash.
pub open spec fn address_host(url: Seq<char>) -> Seq<char> {
    split_on(after_scheme(url), '/')[0]
}

/// The path in an address on the web: what follows the host.
pub open spec fn address_path(url: Seq<char>) -> Seq<char> {
    after_scheme(url).skip(address_host(url).len() as int)
}

/// The address of a folder on the web that a URL shows as it is. The parser counts the
/// characters of a URL with 32 bits.
pub open spec fn plain_address(url: Seq<char>) -> bool {
    &&& web_url(url)
    &&& plain_host(address_host(url))
    &&& plain_folder(address_path(url))
    &&& url.len() < 0x1_0000_0000
}

/// `Url::parse`, with `Url::as_str` and `Url::path` of the URL. The text of a URL of the
/// web is parsed to that URL, and a plain address to itself.
#[verifier::external_body]
fn parse_url(text: &str) -> (res: Result<(String, String), url::ParseError>)
    ensures
        url_view(res) == url_parsed(text@),
        plain_address(text@) ==> url_view(res) == Some((text@, address_path(text@))),
        url_view(res) is Some && web_url((url_view(res)->0).0) ==> url_parsed(
            (url_view(res)->0).0,
        ) == url_view(res),
{
    let address = url::Url::parse(text)?;
    Ok((address.as_str().to_owned(), address.path().to_owned()))
}

/// `Url::join` of the URL that `base` is, with `Url::as_str` and `Url::path` of the
/// result. To a folder on the web a plain relative reference is appended; a plain
/// reference that starts with one slash becomes the path.
#[verifier::external_body]
fn join_url(base: &str, reference: &str) -> (res: Result<(String, String), url::ParseError>)
    ensures
        url_view(res) == url_joined(base@, reference@),
        web_folder(base@) && plain_reference(reference@) ==> url_view(res) == Some(
            (base@ + reference@, url_path(base@) + reference@),
        ),
        web_folder(base@) && reference@.len() > 0 && reference@[0] == '/' && plain_reference(
            reference@.skip(1),
        ) ==> url_view(res) is Some && (url_view(res)->0).1 == reference@,
{
    let address = url::Url::parse(base)?.join(reference)?;
    Ok((address.as_str().to_owned(), address.path().to_owned()))
}

/// How the error of `Url::join` for a reference and the URL `base` reads.
pub uninterp spec fn url_error(base: Seq<char>, reference: Seq<char>) -> Seq<char>;

/// The text of the error that `Url::join` gives for a reference and the URL that `base`
/// is, and no text where it gives none.
#[verifier::external_body]
fn url_error_text(base: &str, reference: &str) -> (res: String)
    ensures
        res@ == url_error(base@, reference@),
{
    match url::Url::parse(base).and_then(|address| address.join(reference)) {
        Ok(_) => String::new(),
        Err(e) => e.to_string(),
    }
}

/// The folder at an address, or that the address is no URL. The address gets exactly
/// one slash at its end.
pub open spec fn opened(url: Seq<char>, username: Seq<char>, password: Seq<char>) -> Result<
    WebDavView,
    Fault,
> {
    match url_parsed(strip_end(url, '/') + "/"@) {
        Some((root, path)) => Ok(WebDavView { root, path, username: trim(username), password }),
        None => Err(Fault::WebdavUrl),
    }
}

/// The address of something in the folder.
pub open spec fn address(root: Seq<char>, relative: Seq<char>, directory: bool) -> Result<
    Seq<char>,
    Fault,
> {
    match url_joined(root, encoded_reference(relative, directory)) {
        Some((url, _)) => Ok(url),
        None => Err(Fault::RemoteUrl(url_error(root, encoded_reference(relative, directory)))),
    }
}

/// `text` without `prefix` in front, where it stands there.
pub open spec fn without_prefix(text: Seq<char>, prefix: Seq<char>) -> Seq<char> {
    if prefix.len() <= text.len() && text.take(prefix.len() as int) == prefix {
        text.skip(prefix.len() as int)
    } else {
        text
    }
}

/// The relative path that the path of an address stands for, below the folder with the
/// path `base`.
pub open spec fn relative_of(base: Seq<char>, path: Seq<char>, separator: char) -> Seq<char> {
    replaced(decoded_path(strip_start(without_prefix(path, base), '/')), '/', seq![separator])
}

/// The relative path that an address in a listing stands for.
pub open spec fn listed_name(dav: WebDavView, href: Seq<char>, separator: char) -> Result<
    Seq<char>,
    Fault,
> {
    match url_joined(dav.root, href) {
        Some((_, path)) => Ok(relative_of(dav.path, path, separator)),
        None => Err(Fault::RemoteUrl(url_error(dav.root, href))),
    }
}

/// A text whose pieces lack a character lacks it, unless it stands between them.
proof fn lemma_pieces_lack(s: Seq<char>, sep: char, c: char)
    requires
        c != sep,
        forall|i: int|
            0 <= i < split_on(s, sep).len() ==> !(#[trigger] split_on(s, sep)[i]).contains(c),
    ensures
        !s.contains(c),
    decreases s.len(),
{
    if s.len() > 0 {
        let init = s.drop_last();
        let (all, before) = (split_on(s, sep), split_on(init, sep));
        lemma_split_nonempty(init, sep);
        let n = before.len() - 1;
        assert forall|i: int| 0 <= i < before.len() implies !(#[trigger] before[i]).contains(c) by {
            if i < n || s.last() == sep {
                assert(all[i] == before[i]);
            } else {
                assert(all[n] == before[n].push(s.last()));
                assert forall|x: int| 0 <= x < before[n].len() implies before[n][x] != c by {
                    assert(all[n][x] == before[n][x]);
                    assert(all[n].contains(all[n][x]));
                }
            }
        }
        lemma_pieces_lack(init, sep, c);
        if s.last() == c {
            assert(all[n] == before[n].push(c));
            assert(all[n][all[n].len() - 1] == c);
            assert(all[n].contains(c));
        }
        assert forall|x: int| 0 <= x < s.len() implies s[x] != c by {
            if x < init.len() {
                assert(init[x] == s[x]);
                assert(init.contains(init[x]));
            }
        }
    }
}

/// A plain reference holds neither a question mark nor a hash.
proof fn lemma_plain_reference(reference: Seq<char>)
    requires
        plain_reference(reference),
    ensures
        !reference.contains('?'),
        !reference.contains('#'),
{
    let pieces = split_on(reference, '/');
    assert forall|i: int| 0 <= i < pieces.len() implies !(#[trigger] pieces[i]).contains('?')
        && !pieces[i].contains('#') by {
        assert(plain_segment(pieces[i]));
        assert forall|x: int| 0 <= x < pieces[i].len() implies pieces[i][x] != '?' && pieces[i][x]
            != '#' by {}
    }
    lemma_pieces_lack(reference, '/', '?');
    lemma_pieces_lack(reference, '/', '#');
}

/// The first piece of a text is what the text starts with.
proof fn lemma_first_piece(s: Seq<char>, sep: char)
    ensures
        split_on(s, sep).len() > 0,
        split_on(s, sep)[0].len() <= s.len(),
        s.take(split_on(s, sep)[0].len() as int) == split_on(s, sep)[0],
    decreases s.len(),
{
    lemma_split_nonempty(s, sep);
    if s.len() > 0 {
        let init = s.drop_last();
        lemma_first_piece(init, sep);
        let (all, before) = (split_on(s, sep), split_on(init, sep));
        if s.last() == sep || before.len() > 1 {
            assert(all[0] == before[0]);
            assert(s.take(all[0].len() as int) =~= init.take(all[0].len() as int));
        } else {
            lemma_one_piece(init, sep);
            assert(all[0] == before[0].push(s.last()));
            assert(s.take(all[0].len() as int) =~= all[0]);
        }
    } else {
        assert(s.take(0) =~= split_on(s, sep)[0]);
    }
}

/// A text that is one piece is that piece.
proof fn lemma_one_piece(s: Seq<char>, sep: char)
    requires
        split_on(s, sep).len() == 1,
    ensures
        split_on(s, sep)[0] == s,
    decreases s.len(),
{
    if s.len() > 0 {
        let init = s.drop_last();
        lemma_split_nonempty(init, sep);
        lemma_one_piece(init, sep);
        assert(split_on(s, sep)[0] =~= init.push(s.last()));
        assert(init.push(s.last()) =~= s);
    } else {
        assert(split_on(s, sep)[0] =~= s);
    }
}

/// A plain address is that of a folder on the web.
proof fn lemma_plain_address(url: Seq<char>)
    requires
        plain_address(url),
    ensures
        !url.contains('?'),
        !url.contains('#'),
        address_path(url).len() > 0,
        address_path(url).last() == '/',
{
    reveal_strlit("http://");
    reveal_strlit("https://");
    reveal_strlit("/");
    let rest = after_scheme(url);
    let host = address_host(url);
    let path = address_path(url);
    lemma_first_piece(rest, '/');
    let labels = split_on(host, '.');
    assert forall|i: int| 0 <= i < labels.len() implies !(#[trigger] labels[i]).contains('?')
        && !labels[i].contains('#') by {
        assert(plain_label(labels[i]));
        assert forall|x: int| 0 <= x < labels[i].len() implies labels[i][x] != '?' && labels[i][x]
            != '#' by {}
    }
    lemma_pieces_lack(host, '.', '?');
    lemma_pieces_lack(host, '.', '#');
    if path != "/"@ {
        lemma_plain_reference(path.subrange(1, path.len() - 1));
    }
    let start = url.len() - rest.len();
    assert forall|x: int| 0 <= x < url.len() implies url[x] != '?' && url[x] != '#' by {
        if x < start {
            if url.take(7) == "http://"@ {
                assert(url[x] == url.take(7)[x]);
            } else {
                assert(url[x] == url.take(8)[x]);
            }
        } else if x < start + host.len() {
            assert(url[x] == rest.take(host.len() as int)[x - start]);
            assert(host.contains(host[x - start]));
        } else {
            let y = x - start - host.len();
            assert(url[x] == path[y]);
            if 0 < y < path.len() - 1 {
                let inner = path.subrange(1, path.len() - 1);
                assert(inner[y - 1] == path[y]);
                assert(inner.contains(inner[y - 1]));
            }
        }
    }
}

fn strip_text_prefix(text: &str, prefix: &str) -> (res: String)
    ensures
        res@ == without_prefix(text@, prefix@),
{
    let chars = chars_of(text);
    let start = chars_of(prefix);
    let n = start.len();
    if n <= chars.len() {
        let head = text_of(&chars, 0, n);
        assert(head@ =~= text@.take(n as int));
        if same_text(head.as_str(), prefix) {
            let rest = text_of(&chars, n, chars.len());
            assert(rest@ =~= text@.skip(n as int));
            return rest;
        }
    }
    text.to_owned()
}

/// Reads the path of an address in the folder with the path `base`.
pub fn relative_in(base: &str, path: &str, separator: char) -> (res: String)
    ensures
        res@ == relative_of(base@, path@, separator),
{
    let below = strip_text_prefix(path, base);
    let inner = strip_text_start(below.as_str(), '/');
    let plain = decode_path(inner.as_str());
    let mut to = String::new();
    to.push(separator);
    assert(to@ =~= seq![separator]);
    replace_char(plain.as_str(), '/', to.as_str())
}

impl WebDav {
    /// The folder at an address.
    pub fn new(url: &str, username: &str, password: &str) -> (res: Result<WebDav, SyncError>)
        ensures
            match res {
                Ok(dav) => opened(url@, username@, password@) == Ok::<WebDavView, Fault>(dav@)
                    && (web_url(dav@.root) ==> url_parsed(dav@.root) == Some(
                    (dav@.root, dav@.path),
                )),
                Err(e) => opened(url@, username@, password@) == Err::<WebDavView, Fault>(e@),
            },
            plain_address(strip_end(url@, '/') + "/"@) ==> (res matches Ok(dav) && dav@.root
                == strip_end(url@, '/') + "/"@ && dav@.path == address_path(dav@.root)
                && own_folder(dav@) && plain_folder(dav@.path)),
    {
        let mut text = strip_text_end(url, '/');
        text.append("/");
        proof {
            if plain_address(text@) {
                lemma_plain_address(text@);
            }
        }
        match parse_url(text.as_str()) {
            Ok((root, path)) => Ok(
                WebDav {
                    root,
                    path,
                    username: trim_text(username),
                    password: password.to_owned(),
                },
            ),
            Err(_) => Err(SyncError::WebdavUrl),
        }
    }

    /// The address of something in the folder.
    pub fn uri(&self, relative: &str, directory: bool) -> (res: Result<String, SyncError>)
        ensures
            match res {
                Ok(url) => address(self@.root, relative@, directory) == Ok::<Seq<char>, Fault>(
                    url@,
                ),
                Err(e) => address(self@.root, relative@, directory) == Err::<Seq<char>, Fault>(e@),
            },
            own_folder(self@) && plain_reference(
                encoded_reference(relative@, directory),
            ) ==> (res matches Ok(url) && url@ == self@.root + encoded_reference(
                relative@,
                directory,
            )),
    {
        let reference = encode_reference(relative, directory);
        match join_url(self.root.as_str(), reference.as_str()) {
            Ok((url, _)) => Ok(url),
            Err(_) => Err(
                SyncError::RemoteUrl(url_error_text(self.root.as_str(), reference.as_str())),
            ),
        }
    }

    /// The relative path that an address in a listing stands for, with the platform's
    /// separator.
    pub fn relative_from_href(&self, href: &str, separator: char) -> (res: Result<
        String,
        SyncError,
    >)
        ensures
            match res {
                Ok(name) => listed_name(self@, href@, separator) == Ok::<Seq<char>, Fault>(name@),
                Err(e) => listed_name(self@, href@, separator) == Err::<Seq<char>, Fault>(e@),
            },
            own_folder(self@) && href@.len() > 0 && href@[0] == '/'
                && plain_reference(href@.skip(1)) ==> (res matches Ok(name) && name@
                == relative_of(self@.path, href@, separator)),
    {
        match join_url(self.root.as_str(), href) {
            Ok((_, path)) => Ok(relative_in(self.path.as_str(), path.as_str(), separator)),
            Err(_) => Err(SyncError::RemoteUrl(url_error_text(self.root.as_str(), href))),
        }
    }
}

/// A number that can be the status of an answer.
pub open spec fn valid_status(status: u16) -> bool {
    100 <= status <= 999
}

/// How `StatusCode` is displayed: the number and its customary meaning.
pub uninterp spec fn status_text(status: u16) -> Seq<char>;

/// `StatusCode::from_u16` and the display of the status.
#[verifier::external_body]
fn show_status(status: u16) -> (res: String)
    requires
        valid_status(status),
    ensures
        res@ == status_text(status),
{
    reqwest::StatusCode::from_u16(status).unwrap().to_string()
}

/// The status says that a request was carried out.
pub open spec fn success(status: u16) -> bool {
    200 <= status <= 299
}

/// What the status of the answer to a request means: nothing, or a failure of `action`.
pub open spec fn status_fault(status: u16, action: Seq<char>) -> Option<Fault> {
    if success(status) {
        None
    } else if status == 401 {
        Some(Fault::Unauthorized(action))
    } else {
        Some(Fault::Http(action, status_text(status)))
    }
}

/// Checks the status of the answer to a request.
pub fn check_status(status: u16, action: &str) -> (res: Result<(), SyncError>)
    requires
        valid_status(status),
    ensures
        failure(res) == status_fault(status, action@),
{
    if status >= 200 && status <= 299 {
        Ok(())
    } else if status == 401 {
        Err(SyncError::Unauthorized(action.to_owned()))
    } else {
        Err(SyncError::Http(action.to_owned(), show_status(status)))
    }
}

/// What a request asks for.
#[derive(Clone, Copy, Debug, PartialEq, Eq, Structural)]
pub enum Method {
    Get,
    Put,
    Delete,
    Propfind,
    Mkcol,
}

/// The name of a method in a request.
pub open spec fn method_text(method: Method) -> Seq<char> {
    match method {
        Method::Get => "GET"@,
        Method::Put => "PUT"@,
        Method::Delete => "DELETE"@,
        Method::Propfind => "PROPFIND"@,
        Method::Mkcol => "MKCOL"@,
    }
}

impl Method {
    /// The name of the method.
    pub fn name(&self) -> (res: &'static str)
        ensures
            res@ == method_text(*self),
    {
        match self {
            Method::Get => "GET",
            Method::Put => "PUT",
            Method::Delete => "DELETE",
            Method::Propfind => "PROPFIND",
            Method::Mkcol => "MKCOL",
        }
    }
}

/// A request to the server.
#[derive(Debug, PartialEq, Eq)]
pub struct Request {
    pub method: Method,
    pub uri: String,
    /// How many levels a listing goes down.
    pub depth: Option<u8>,
    pub body: Vec<u8>,
}

/// What a [`Request`] says.
#[verifier::ext_equal]
pub struct RequestView {
    pub method: Method,
    pub uri: Seq<char>,
    pub depth: Option<u8>,
    pub body: Seq<u8>,
}

impl View for Request {
    type V = RequestView;

    open spec fn view(&self) -> RequestView {
        RequestView {
            method: self.method,
            uri: self.uri@,
            depth: self.depth,
            body: self.body@,
        }
    }
}

/// What a function that prepares a request has returned.
pub open spec fn request_view(res: Result<Request, SyncError>) -> Result<RequestView, Fault> {
    match res {
        Ok(request) => Ok(request@),
        Err(e) => Err(e@),
    }
}

/// The request with a method and a body for an address.
pub open spec fn request(
    method: Method,
    uri: Result<Seq<char>, Fault>,
    depth: Option<u8>,
    body: Seq<u8>,
) -> Result<RequestView, Fault> {
    match uri {
        Ok(uri) => Ok(RequestView { method, uri, depth, body }),
        Err(fault) => Err(fault),
    }
}

/// What a listing asks for.
pub open spec fn listing_body() -> Seq<char> {
    "<?xml version=\"1.0\"?><propfind xmlns=\"DAV:\"><prop><resourcetype/><getlastmodified/></prop></propfind>"@
}

impl WebDav {
    /// The request for something in the folder, without a body.
    pub fn request(&self, method: Method, relative: &str, directory: bool) -> (res: Result<
        Request,
        SyncError,
    >)
        ensures
            request_view(res) == request(
                method,
                address(self@.root, relative@, directory),
                None,
                Seq::empty(),
            ),
    {
        match self.uri(relative, directory) {
            Ok(uri) => {
                let body: Vec<u8> = Vec::new();
                assert(body@ =~= Seq::<u8>::empty());
                Ok(Request { method, uri, depth: None, body })
            },
            Err(e) => Err(e),
        }
    }

    /// The request for the contents of a folder.
    pub fn list_request(&self, relative: &str) -> (res: Result<Request, SyncError>)
        ensures
            request_view(res) == request(
                Method::Propfind,
                address(self@.root, relative@, true),
                Some(1u8),
                encode_utf8(listing_body()),
            ),
    {
        match self.uri(relative, true) {
            Ok(uri) => Ok(
                Request {
                    method: Method::Propfind,
                    uri,
                    depth: Some(1),
                    body:
                        "<?xml version=\"1.0\"?><propfind xmlns=\"DAV:\"><prop><resourcetype/><getlastmodified/></prop></propfind>".as_bytes_vec(),
                },
            ),
            Err(e) => Err(e),
        }
    }

    /// The request that asks whether a folder is there.
    pub fn collection_request(&self, relative: &str) -> (res: Result<Request, SyncError>)
        ensures
            request_view(res) == request(
                Method::Propfind,
                address(self@.root, relative@, true),
                Some(0u8),
                Seq::empty(),
            ),
    {
        match self.request(Method::Propfind, relative, true) {
            Ok(request) => Ok(
                Request {
                    method: request.method,
                    uri: request.uri,
                    depth: Some(0),
                    body: request.body,
                },
            ),
            Err(e) => Err(e),
        }
    }
}

/// Decides, by the answer to whether a folder is there, whether it has to be made.
pub fn ensure_collection(status: u16) -> (res: Result<bool, SyncError>)
    requires
        valid_status(status),
    ensures
        match res {
            Ok(missing) => if missing {
                status == 404
            } else {
                success(status)
            },
            Err(e) => status != 404 && status_fault(status, "检查 WebDAV 目录"@) == Some(e@),
        },
{
    if status == 404 {
        return Ok(true);
    }
    match check_status(status, "检查 WebDAV 目录") {
        Ok(_) => Ok(false),
        Err(e) => Err(e),
    }
}

/// The folder that has to be there before a file is uploaded, if the file is not
/// directly in the WebDAV folder.
pub open spec fn parent_folder(relative: Seq<char>) -> Option<Seq<char>> {
    match split_last(relative, "/"@) {
        Some((dir, _)) => if dir.len() > 0 {
            Some(dir)
        } else {
            None
        },
        None => None,
    }
}

/// What a file is uploaded with: the folder that has to be there, and the request.
pub struct Upload {
    pub parent: Option<String>,
    pub request: Request,
}

impl WebDav {
    /// Prepares the upload of a file with the given content.
    pub fn upload_file(&self, relative: &str, content: Vec<u8>) -> (res: Result<Upload, SyncError>)
        ensures
            match res {
                Ok(upload) => {
                    &&& optional_view(upload.parent) == parent_folder(relative@)
                    &&& request(
                        Method::Put,
                        address(self@.root, relative@, false),
                        None,
                        content@,
                    ) == Ok::<RequestView, Fault>(upload.request@)
                },
                Err(e) => address(self@.root, relative@, false) == Err::<Seq<char>, Fault>(e@),
            },
    {
        let parent = match split_text_last(relative, "/") {
            Some((dir, _)) => if dir.as_str().is_empty() {
                None
            } else {
                Some(dir)
            },
            None => None,
        };
        match self.uri(relative, false) {
            Ok(uri) => Ok(
                Upload {
                    parent,
                    request: Request { method: Method::Put, uri, depth: None, body: content },
                },
            ),
            Err(e) => Err(e),
        }
    }
}

/// The names under which a remote file is stored in a local folder, or that it would
/// leave the folder.
pub open spec fn local_names(relative: Seq<char>) -> Result<Seq<Seq<char>>, Fault> {
    match inside(relative_parts(relative)) {
        Some(list) => Ok(list),
        None => Err(Fault::RemotePath),
    }
}

/// Leads from a local folder to where a remote file is stored; a path that would leave
/// the folder is refused, and every name leads a single step down. How a backslash or a
/// drive letter is read depends on the platform.
pub fn safe_local(relative: &str) -> (res: Result<Vec<String>, SyncError>)
    ensures
        below(relative@, accepted(res)),
        portable(relative@) ==> match res {
            Ok(list) => local_names(relative@) == Ok::<Seq<Seq<char>>, Fault>(views(list@)),
            Err(e) => local_names(relative@) == Err::<Seq<Seq<char>>, Fault>(e@),
        },
        relative@.len() > 0 && relative@[0] == '/' ==> res is Err,
        steps_up(relative@) ==> res is Err,
        res matches Ok(list) ==> all_plain(views(list@)),
        res matches Err(e) ==> e@ == Fault::RemotePath,
{
    match names_below(relative) {
        Some(list) => Ok(list),
        None => Err(SyncError::RemotePath),
    }
}

/// What a file is downloaded with: the names under which it is stored, the request, and
/// the time that the listing gave.
pub struct Download {
    pub names: Vec<String>,
    pub request: Request,
    pub modified: Option<u64>,
}

impl WebDav {
    /// Prepares the download of a file of a listing. Its local names are checked first.
    pub fn download(&self, file: &RemoteFile) -> (res: Result<Download, SyncError>)
        ensures
            match res {
                Ok(plan) => {
                    &&& below(file@.relative, Some(views(plan.names@)))
                    &&& portable(file@.relative) ==> local_names(file@.relative) == Ok::<
                        Seq<Seq<char>>,
                        Fault,
                    >(views(plan.names@))
                    &&& !(file@.relative.len() > 0 && file@.relative[0] == '/')
                    &&& !steps_up(file@.relative)
                    &&& all_plain(views(plan.names@))
                    &&& request(
                        Method::Get,
                        address(self@.root, file@.relative, false),
                        None,
                        Seq::empty(),
                    ) == Ok::<RequestView, Fault>(plan.request@)
                    &&& plan.modified == file@.modified
                },
                Err(e) => if portable(file@.relative) && local_names(file@.relative) is Ok {
                    address(self@.root, file@.relative, false) == Err::<Seq<char>, Fault>(e@)
                } else if portable(file@.relative) {
                    e@ == Fault::RemotePath
                } else {
                    ||| e@ == Fault::RemotePath && below(file@.relative, None)
                    ||| address(self@.root, file@.relative, false) == Err::<Seq<char>, Fault>(e@)
                },
            },
    {
        let names = match safe_local(file.relative.as_str()) {
            Ok(names) => names,
            Err(e) => {
                return Err(e);
            },
        };
        match self.request(Method::Get, file.relative.as_str(), false) {
            Ok(request) => Ok(Download { names, request, modified: file.modified }),
            Err(e) => Err(e),
        }
    }
}

/// What `httpdate::parse_http_date` makes of a text, in seconds since 1970.
pub uninterp spec fn http_date_seconds(text: Seq<char>) -> Option<u64>;

/// `httpdate::parse_http_date`; its dates are never before 1970 and have whole seconds.
#[verifier::external_body]
pub(crate) fn http_date(text: &str) -> (res: Option<u64>)
    ensures
        res == http_date_seconds(text@),
{
    let date = httpdate::parse_http_date(text).ok()?;
    Some(date.duration_since(std::time::UNIX_EPOCH).ok()?.as_secs())
}

/// The time that an optional date stands for.
pub open spec fn date_seconds(text: Option<Seq<char>>) -> Option<u64> {
    match text {
        Some(date) => http_date_seconds(date),
        None => None,
    }
}

/// The time that a downloaded file gets: that of the listing, or else that of the
/// answer's header.
pub fn file_time(listed: Option<u64>, header: Option<u64>) -> (res: Option<u64>)
    ensures
        res == (if listed is Some {
            listed
        } else {
            header
        }),
{
    match listed {
        Some(time) => Some(time),
        None => header,
    }
}

/// The time that a downloaded file gets, by the time of the listing and the date in the
/// answer's header.
pub fn download_file(modified: Option<u64>, header: Option<&str>) -> (res: Option<u64>)
    ensures
        modified is Some ==> res == modified,
        modified is None ==> res == (match header {
            Some(date) => http_date_seconds(date@),
            None => None,
        }),
{
    let date = match header {
        Some(date) => http_date(date),
        None => None,
    };
    file_time(modified, date)
}

/// An encoded name is not empty and does not start with a slash.
proof fn lemma_encoded_name(name: Seq<char>)
    requires
        name.len() > 0,
    ensures
        encoded_name(name).len() > 0,
        encoded_name(name)[0] != '/',
{
    reveal_strlit("%20");
    let bytes = encode_utf8(name);
    assert(bytes.len() > 0);
    let b = bytes[0];
    let rest = form_bytes(bytes.skip(1));
    lemma_replaced_append(form_byte(b), rest, '+', "%20"@);
    let first = replaced(form_byte(b), '+', "%20"@);
    if unreserved(b) {
        lemma_replaced_none(form_byte(b), '+', "%20"@);
    } else if b == 0x20 {
        lemma_replaced_char('+', '+', "%20"@);
    } else {
        assert(form_byte(b)[0] == '%');
        assert forall|i: int| 0 <= i < form_byte(b).len() implies form_byte(b)[i] != '+' by {}
        lemma_replaced_none(form_byte(b), '+', "%20"@);
    }
    assert(first.len() > 0 && first[0] != '/');
}

proof fn lemma_join_first(list: Seq<Seq<char>>, separator: Seq<char>)
    requires
        list.len() > 0,
        list[0].len() > 0,
    ensures
        join(list, separator).len() > 0,
        join(list, separator)[0] == list[0][0],
    decreases list.len(),
{
    if list.len() > 1 {
        assert(list.drop_last()[0] == list[0]);
        lemma_join_first(list.drop_last(), separator);
    }
}

proof fn lemma_encoded_first(list: Seq<Seq<char>>)
    requires
        list.len() > 0,
        nonempty_names(list),
    ensures
        encoded_names(list).len() == list.len(),
        encoded_names(list)[0] == encoded_name(list[0]),
    decreases list.len(),
{
    assert(list[list.len() - 1].len() > 0);
    if list.len() > 1 {
        let init = list.drop_last();
        assert forall|i: int| 0 <= i < init.len() implies (#[trigger] init[i]).len() > 0 by {
            assert(init[i] == list[i]);
        }
        lemma_encoded_first(init);
    } else {
        assert(encoded_names(list.drop_last()) =~= Seq::<Seq<char>>::empty());
    }
}

/// The address under which a file is stored is listed under the file's own names: the
/// path of the address is the folder's path and the encoded names, and reading it
/// gives the names with the platform's separator between them.
pub proof fn law_listed_name_is_stored_name(base: Seq<char>, list: Seq<Seq<char>>, separator: char)
    requires
        list.len() > 0,
        nonempty_names(list),
        forall|i: int| 0 <= i < list.len() ==> !(#[trigger] list[i]).contains('/'),
        !join(list, "/"@).contains('\\'),
    ensures
        encoded_path(join(list, "/"@)) == join(encoded_names(list), "/"@),
        relative_of(base, base + encoded_path(join(list, "/"@)), separator) == join(
            list,
            seq![separator],
        ),
{
    reveal_strlit("/");
    let relative = join(list, "/"@);
    assert("/"@ =~= seq!['/']);
    lemma_replaced_none(relative, '\\', "/"@);
    lemma_split_join(list, '/');
    let shown = encoded_path(relative);
    lemma_encoded_first(list);
    assert(list[0].len() > 0);
    lemma_encoded_name(list[0]);
    lemma_join_first(encoded_names(list), "/"@);
    assert((base + shown).take(base.len() as int) =~= base);
    assert((base + shown).skip(base.len() as int) =~= shown);
    assert(strip_start(shown, '/') == shown);
    law_encoded_path_is_decoded(list);
    lemma_replaced_join(list, '/', seq![separator]);
}

/// The name under which a listing shows the file that is stored under `relative`.
pub open spec fn shown_name(dav: WebDavView, relative: Seq<char>, separator: char) -> Result<
    Seq<char>,
    Fault,
> {
    match url_joined(dav.root, encoded_reference(relative, false)) {
        Some((_, path)) => listed_name(dav, path, separator),
        None => Err(Fault::RemoteUrl(url_error(dav.root, encoded_reference(relative, false)))),
    }
}

/// The names by which a path leads to a file: no name is empty, `.` or `..`, or holds a
/// slash or a backslash.
pub open spec fn file_names(list: Seq<Seq<char>>) -> bool {
    &&& list.len() > 0
    &&& forall|i: int|
        0 <= i < list.len() ==> plain_part(#[trigger] list[i]) && !list[i].contains('\\')
}

/// A name as a URL shows it is a plain piece of a path.
proof fn lemma_encoded_plain(name: Seq<char>)
    requires
        plain_part(name),
    ensures
        plain_segment(encoded_name(name)),
        !encoded_name(name).contains('/'),
{
    broadcast use vstd::utf8::is_ascii_chars_encode_utf8;
    broadcast use {vstd::utf8::encode_utf8_valid_utf8, vstd::utf8::encode_utf8_decode_utf8};

    lemma_encoded_name(name);
    lemma_encoded_chars(encode_utf8(name));
    lemma_name_decoded(name);
    let shown = encoded_name(name);
    assert forall|i: int| 0 <= i < shown.len() implies shown[i] != '/' by {
        assert(shown[i] == '%' || (shown[i] as u32) < 128 && unreserved(shown[i] as u8));
    }
    let (one, two) = (seq!['.'], seq!['.', '.']);
    assert(vstd::utf8::is_ascii_chars(one) && vstd::utf8::is_ascii_chars(two));
    assert(encode_utf8(one) =~= seq![0x2eu8]);
    assert(encode_utf8(two) =~= seq![0x2eu8, 0x2eu8]);
    assert(vstd::utf8::decode_utf8(encode_utf8(name)) == name);
    assert(vstd::utf8::decode_utf8(encode_utf8(one)) == one);
    assert(vstd::utf8::decode_utf8(encode_utf8(two)) == two);
}

/// The characters of bytes as a path shows them.
proof fn lemma_encoded_chars(bytes: Seq<u8>)
    ensures
        ({
            let shown = replaced(form_bytes(bytes), '+', "%20"@);
            forall|i: int|
                0 <= i < shown.len() ==> #[trigger] shown[i] == '%' || (shown[i] as u32) < 128
                    && unreserved(shown[i] as u8)
        }),
    decreases bytes.len(),
{
    reveal_strlit("%20");
    if bytes.len() > 0 {
        let b = bytes[0];
        let rest = form_bytes(bytes.skip(1));
        lemma_encoded_chars(bytes.skip(1));
        lemma_replaced_append(form_byte(b), rest, '+', "%20"@);
        let first = replaced(form_byte(b), '+', "%20"@);
        let others = replaced(rest, '+', "%20"@);
        if unreserved(b) {
            lemma_replaced_none(form_byte(b), '+', "%20"@);
        } else if b == 0x20 {
            lemma_replaced_char('+', '+', "%20"@);
        } else {
            assert forall|i: int| 0 <= i < form_byte(b).len() implies form_byte(b)[i] != '+' by {}
            lemma_replaced_none(form_byte(b), '+', "%20"@);
        }
        let shown = replaced(form_bytes(bytes), '+', "%20"@);
        assert(shown == first + others);
        assert forall|i: int| 0 <= i < shown.len() implies #[trigger] shown[i] == '%' || (
        shown[i] as u32) < 128 && unreserved(shown[i] as u8) by {
            if i >= first.len() {
                assert(shown[i] == others[i - first.len()]);
            } else {
                assert(shown[i] == first[i]);
            }
        }
    }
}

/// Splitting two texts with a separator between them splits each.
proof fn lemma_split_concat(a: Seq<char>, b: Seq<char>, sep: char)
    ensures
        split_on(a + seq![sep] + b, sep) == split_on(a, sep) + split_on(b, sep),
    decreases b.len(),
{
    let front = a + seq![sep];
    if b.len() == 0 {
        assert(front + b =~= front);
        assert(front.drop_last() =~= a);
        assert(split_on(front, sep) =~= split_on(a, sep) + split_on(b, sep));
    } else {
        let init = b.drop_last();
        lemma_split_concat(a, init, sep);
        lemma_split_nonempty(init, sep);
        assert((front + b).drop_last() =~= front + init);
        assert((front + b).last() == b.last());
        let before = split_on(front + init, sep);
        assert(before.last() == split_on(init, sep).last());
        assert(before.drop_last() =~= split_on(a, sep) + split_on(init, sep).drop_last());
        assert(split_on(front + b, sep) =~= split_on(a, sep) + split_on(b, sep));
    }
}

/// The reference to a file is plain, and so is the path of its address.
proof fn lemma_file_reference(path: Seq<char>, list: Seq<Seq<char>>)
    requires
        plain_folder(path),
        file_names(list),
    ensures
        nonempty_names(list),
        !join(list, "/"@).contains('\\'),
        plain_reference(encoded_path(join(list, "/"@))),
        ({
            let whole = path + encoded_path(join(list, "/"@));
            whole.len() > 0 && whole[0] == '/' && plain_reference(whole.skip(1))
        }),
{
    reveal_strlit("/");
    assert("/"@ =~= seq!['/']);
    assert forall|i: int| 0 <= i < list.len() implies (#[trigger] list[i]).len() > 0 && !list[i].contains('/')
        && !list[i].contains('\\') by {
        assert(plain_part(list[i]));
    }
    lemma_join_lacks(list, '\\');
    law_listed_name_is_stored_name(path, list, '/');
    let shown = encoded_names(list);
    lemma_names_encoded(list);
    assert forall|i: int| 0 <= i < shown.len() implies plain_segment(#[trigger] shown[i])
        && !shown[i].contains('/') by {
        assert(plain_part(list[i]));
        lemma_encoded_plain(list[i]);
    }
    lemma_split_join(shown, '/');
    let reference = encoded_path(join(list, "/"@));
    let whole = path + reference;
    if path == "/"@ {
        assert(whole.skip(1) =~= reference);
    } else {
        let inner = path.subrange(1, path.len() - 1);
        lemma_split_concat(inner, reference, '/');
        assert(whole.skip(1) =~= inner + seq!['/'] + reference);
        let pieces = split_on(whole.skip(1), '/');
        assert forall|i: int| 0 <= i < pieces.len() implies plain_segment(#[trigger] pieces[i]) by {
            let n = split_on(inner, '/').len();
            if i < n {
                assert(pieces[i] == split_on(inner, '/')[i]);
            } else {
                assert(pieces[i] == shown[i - n]);
            }
        }
    }
}

proof fn lemma_join_lacks(list: Seq<Seq<char>>, c: char)
    requires
        c != '/',
        forall|i: int| 0 <= i < list.len() ==> !(#[trigger] list[i]).contains(c),
    ensures
        !join(list, "/"@).contains(c),
    decreases list.len(),
{
    reveal_strlit("/");
    if list.len() > 0 {
        let init = list.drop_last();
        let last = list.last();
        assert(!list[list.len() - 1].contains(c));
        assert forall|i: int| 0 <= i < init.len() implies !(#[trigger] init[i]).contains(c) by {
            assert(init[i] == list[i]);
        }
        lemma_join_lacks(init, c);
        let front = join(init, "/"@);
        let all = join(list, "/"@);
        assert forall|x: int| 0 <= x < all.len() implies all[x] != c by {
            if list.len() == 1 {
                assert(last.contains(all[x]));
            } else if x < front.len() {
                assert(front.contains(front[x]));
            } else if x > front.len() {
                assert(all[x] == last[x - front.len() - 1]);
                assert(last.contains(last[x - front.len() - 1]));
            }
        }
    }
}

proof fn lemma_names_encoded(list: Seq<Seq<char>>)
    requires
        nonempty_names(list),
    ensures
        encoded_names(list).len() == list.len(),
        forall|i: int|
            0 <= i < list.len() ==> #[trigger] encoded_names(list)[i] == encoded_name(list[i]),
    decreases list.len(),
{
    if list.len() > 0 {
        let init = list.drop_last();
        assert(list[list.len() - 1].len() > 0);
        assert forall|i: int| 0 <= i < init.len() implies (#[trigger] init[i]).len() > 0 by {
            assert(init[i] == list[i]);
        }
        lemma_names_encoded(init);
        assert forall|i: int| 0 <= i < list.len() implies #[trigger] encoded_names(list)[i]
            == encoded_name(list[i]) by {
            if i < init.len() {
                assert(encoded_names(list)[i] == encoded_names(init)[i]);
            }
        }
    }
}

impl WebDav {
    /// The name under which a listing shows the file that is stored under `relative`. In
    /// a folder on the web whose own path is plain it is the file's own name, with the
    /// platform's separator: the path of a file's address is read as the file's names.
    pub fn listed_as(&self, relative: &str, separator: char) -> (res: Result<String, SyncError>)
        ensures
            outcome(res) == shown_name(self@, relative@, separator),
            forall|list: Seq<Seq<char>>|
                own_folder(self@) && plain_folder(self@.path) && file_names(list)
                    && relative@ == #[trigger] join(list, "/"@) ==> outcome(res) == Ok::<
                    Seq<char>,
                    Fault,
                >(join(list, seq![separator])),
    {
        let reference = encode_reference(relative, false);
        match join_url(self.root.as_str(), reference.as_str()) {
            Ok((_, path)) => {
                let res = self.relative_from_href(path.as_str(), separator);
                proof {
                    assert forall|list: Seq<Seq<char>>|
                        own_folder(self@) && plain_folder(self@.path)
                            && file_names(list) && relative@ == #[trigger] join(
                            list,
                            "/"@,
                        ) implies outcome(res) == Ok::<Seq<char>, Fault>(
                        join(list, seq![separator]),
                    ) by {
                        lemma_file_reference(self@.path, list);
                        assert(path@ == self@.path + reference@);
                        law_listed_name_is_stored_name(self@.path, list, separator);
                    }
                }
                res
            },
            Err(_) => {
                proof {
                    assert forall|list: Seq<Seq<char>>|
                        own_folder(self@) && plain_folder(self@.path)
                            && file_names(list) implies relative@ != #[trigger] join(
                        list,
                        "/"@,
                    ) by {
                        lemma_file_reference(self@.path, list);
                    }
                }
                Err(
                    SyncError::RemoteUrl(url_error_text(self.root.as_str(), reference.as_str())),
                )
            },
        }
    }
}

/// What came back for a request.
#[derive(Debug, PartialEq, Eq)]
pub enum Reply {
    /// The server's answer.
    Answer(u16, Vec<u8>),
    /// There was no answer; why not.
    Lost(String),
}

/// What a [`Reply`] says.
pub enum ReplyView {
    Answer(u16, Seq<u8>),
    Lost(Seq<char>),
}

impl View for Reply {
    type V = ReplyView;

    open spec fn view(&self) -> ReplyView {
        match self {
            Reply::Answer(status, body) => ReplyView::Answer(*status, body@),
            Reply::Lost(text) => ReplyView::Lost(text@),
        }
    }
}

/// The status of an answer is one.
pub open spec fn valid_reply(reply: ReplyView) -> bool {
    reply matches ReplyView::Answer(status, _) ==> valid_status(status)
}

/// What a reply means: nothing, or a failure of `action`.
pub open spec fn reply_fault(reply: ReplyView, action: Seq<char>) -> Option<Fault> {
    match reply {
        ReplyView::Answer(status, _) => status_fault(status, action),
        ReplyView::Lost(text) => Some(Fault::Reported(text)),
    }
}

/// Checks what came back for a request.
pub fn check_reply(reply: &Reply, action: &str) -> (res: Result<(), SyncError>)
    requires
        valid_reply(reply@),
    ensures
        failure(res) == reply_fault(reply@, action@),
{
    match reply {
        Reply::Answer(status, _) => check_status(*status, action),
        Reply::Lost(text) => Err(SyncError::Reported(text.clone())),
    }
}

/// What was removed from the WebDAV folder, and what could not be, and why.
pub struct CleanupOutcome {
    pub removed: Vec<String>,
    pub failed: Vec<(String, String)>,
}

/// What a list of names with reasons says.
pub open spec fn pair_views(list: Seq<(String, String)>) -> Seq<(Seq<char>, Seq<char>)> {
    list.map_values(|pair: (String, String)| (pair.0@, pair.1@))
}

/// Why something could not be removed, if it could not: it is gone if the server says
/// so, or says that it was not there.
pub open spec fn removal_failure(reply: ReplyView) -> Option<Seq<char>> {
    match reply {
        ReplyView::Answer(status, _) => if success(status) || status == 404 {
            None
        } else {
            Some("HTTP "@ + status_text(status))
        },
        ReplyView::Lost(text) => Some(text),
    }
}

impl CleanupOutcome {
    /// Nothing was removed yet.
    pub fn new() -> (res: CleanupOutcome)
        ensures
            views(res.removed@) == Seq::<Seq<char>>::empty(),
            pair_views(res.failed@) == Seq::<(Seq<char>, Seq<char>)>::empty(),
    {
        let res = CleanupOutcome { removed: Vec::new(), failed: Vec::new() };
        assert(views(res.removed@) =~= Seq::<Seq<char>>::empty());
        assert(pair_views(res.failed@) =~= Seq::<(Seq<char>, Seq<char>)>::empty());
        res
    }

    /// Records what came back for the request to remove `relative`.
    pub fn record(&mut self, relative: String, reply: &Reply)
        requires
            valid_reply(reply@),
        ensures
            removal_failure(reply@) is None ==> views(final(self).removed@) == views(
                old(self).removed@,
            ).push(relative@) && pair_views(final(self).failed@) == pair_views(old(self).failed@),
            removal_failure(reply@) matches Some(why) ==> views(final(self).removed@) == views(
                old(self).removed@,
            ) && pair_views(final(self).failed@) == pair_views(old(self).failed@).push(
                (relative@, why),
            ),
    {
        let ghost removed = self.removed@;
        let ghost failed = self.failed@;
        let ghost name = relative@;
        let why = match reply {
            Reply::Answer(status, _) => {
                if (*status >= 200 && *status <= 299) || *status == 404 {
                    self.removed.push(relative);
                    assert(views(self.removed@) =~= views(removed).push(name));
                    return;
                }
                let mut why = "HTTP ".to_owned();
                why.append(show_status(*status).as_str());
                why
            },
            Reply::Lost(text) => text.clone(),
        };
        let ghost reason = why@;
        self.failed.push((relative, why));
        assert(pair_views(self.failed@) =~= pair_views(failed).push((name, reason)));
    }
}

/// The names of a folder's contents, each with whether it is a folder. The folder's own
/// entry, whose name is empty, is left out.
pub open spec fn named_entries(dav: WebDavView, separator: char, list: Seq<ListedView>) -> Result<
    Seq<(Seq<char>, bool)>,
    Fault,
>
    decreases list.len(),
{
    if list.len() == 0 {
        Ok(Seq::empty())
    } else {
        match named_entries(dav, separator, list.drop_last()) {
            Err(fault) => Err(fault),
            Ok(before) => match listed_name(dav, list.last().href, separator) {
                Err(fault) => Err(fault),
                Ok(name) => if name.len() == 0 {
                    Ok(before)
                } else {
                    Ok(before.push((name, list.last().collection)))
                },
            },
        }
    }
}

/// The contents of the WebDAV folder itself, by the answer to a listing of it. A folder
/// that is not there is empty.
pub open spec fn top_level(dav: WebDavView, separator: char, status: u16, body: Seq<u8>) -> Result<
    Seq<(Seq<char>, bool)>,
    Fault,
> {
    if status == 404 {
        Ok(Seq::empty())
    } else {
        match status_fault(status, "列出 WebDAV"@) {
            Some(fault) => Err(fault),
            None => match listing(shown_text(body)) {
                Err(fault) => Err(fault),
                Ok(list) => named_entries(dav, separator, list),
            },
        }
    }
}

/// What a list of names with marks says.
pub open spec fn entry_views(list: Seq<(String, bool)>) -> Seq<(Seq<char>, bool)> {
    list.map_values(|entry: (String, bool)| (entry.0@, entry.1))
}

/// What a function that returns such a list or fails has returned.
pub open spec fn entries_view(res: Result<Vec<(String, bool)>, SyncError>) -> Result<
    Seq<(Seq<char>, bool)>,
    Fault,
> {
    match res {
        Ok(list) => Ok(entry_views(list@)),
        Err(e) => Err(e@),
    }
}

proof fn lemma_named_fault(dav: WebDavView, separator: char, list: Seq<ListedView>, n: int)
    requires
        0 <= n <= list.len(),
        named_entries(dav, separator, list.take(n)) is Err,
    ensures
        named_entries(dav, separator, list) == named_entries(dav, separator, list.take(n)),
    decreases list.len(),
{
    if n < list.len() {
        assert(list.drop_last().take(n) =~= list.take(n));
        lemma_named_fault(dav, separator, list.drop_last(), n);
    } else {
        assert(list.take(n) =~= list);
    }
}

impl WebDav {
    /// The names of a folder's contents.
    pub fn name_entries(&self, list: &Vec<Listed>, separator: char) -> (res: Result<
        Vec<(String, bool)>,
        SyncError,
    >)
        ensures
            entries_view(res) == named_entries(self@, separator, listed_views(list@)),
    {
        let ghost all = listed_views(list@);
        let mut found: Vec<(String, bool)> = Vec::new();
        assert(entry_views(found@) =~= Seq::<(Seq<char>, bool)>::empty());
        let mut i: usize = 0;
        while i < list.len()
            invariant
                i <= list@.len(),
                all == listed_views(list@),
                named_entries(self@, separator, all.take(i as int)) == Ok::<
                    Seq<(Seq<char>, bool)>,
                    Fault,
                >(entry_views(found@)),
            decreases list@.len() - i,
        {
            assert(all.take(i + 1).drop_last() =~= all.take(i as int));
            assert(all.take(i + 1).last() == list@[i as int]@);
            match self.relative_from_href(list[i].href.as_str(), separator) {
                Ok(name) => {
                    if !name.as_str().is_empty() {
                        let ghost before = found@;
                        let ghost shown = name@;
                        found.push((name, list[i].collection));
                        assert(entry_views(found@) =~= entry_views(before).push(
                            (shown, all[i as int].collection),
                        ));
                    }
                },
                Err(e) => {
                    proof {
                        lemma_named_fault(self@, separator, all, i + 1);
                    }
                    return Err(e);
                },
            }
            i = i + 1;
        }
        assert(all.take(i as int) =~= all);
        Ok(found)
    }

    /// Reads the answer to a listing of the WebDAV folder itself.
    pub fn list_top_level(&self, status: u16, body: &Vec<u8>, separator: char) -> (res: Result<
        Vec<(String, bool)>,
        SyncError,
    >)
        requires
            valid_status(status),
        ensures
            entries_view(res) == top_level(self@, separator, status, body@),
    {
        if status == 404 {
            let none: Vec<(String, bool)> = Vec::new();
            assert(entry_views(none@) =~= Seq::<(Seq<char>, bool)>::empty());
            return Ok(none);
        }
        match check_status(status, "列出 WebDAV") {
            Ok(_) => {},
            Err(e) => {
                return Err(e);
            },
        }
        let text = lossy_text(body);
        match parse_listing(text.as_str()) {
            Ok(list) => self.name_entries(&list, separator),
            Err(e) => Err(e),
        }
    }
}

/// An address means the same folder with and without a slash at its end.
pub proof fn law_trailing_slash_does_not_matter(
    url: Seq<char>,
    username: Seq<char>,
    password: Seq<char>,
)
    ensures
        opened(url + "/"@, username, password) == opened(url, username, password),
{
    reveal_strlit("/");
    assert((url + "/"@).drop_last() =~= url);
}

/// A file in a folder is uploaded after the folder was made sure of, whatever its name and
/// the folder's are; a file directly in the WebDAV folder needs no other folder.
pub proof fn law_file_goes_into_its_folder(dir: Seq<char>, name: Seq<char>)
    requires
        !name.contains('/'),
    ensures
        dir.len() > 0 ==> parent_folder(dir + seq!['/'] + name) == Some(dir),
        dir.len() == 0 ==> parent_folder(dir + seq!['/'] + name) is None,
        parent_folder(name) is None,
{
    reveal_strlit("/");
    assert("/"@ =~= seq!['/']);
    law_last_part(dir, '/', name);
}

/// An answer is a success just if its status lies from 200 to 299; of the others, 401 says
/// that the user is not known.
pub proof fn law_statuses(status: u16, action: Seq<char>)
    ensures
        status_fault(status, action) is None <==> 200 <= status && status < 300,
        status == 401 ==> status_fault(status, action) == Some(Fault::Unauthorized(action)),
        !(200 <= status && status < 300) && status != 401 ==> status_fault(status, action) == Some(
            Fault::Http(action, status_text(status)),
        ),
{
}

/// Something counts as removed just if the server answers so, or that it was not there.
pub proof fn law_gone_is_removed(status: u16, body: Seq<u8>, why: Seq<char>)
    ensures
        removal_failure(ReplyView::Answer(status, body)) is None <==> status == 404 || (200
            <= status && status < 300),
        removal_failure(ReplyView::Lost(why)) == Some(why),
{
}

/// A request without an answer fails with the reason.
pub proof fn law_lost_requests_fail(why: Seq<char>, action: Seq<char>, status: u16, body: Seq<u8>)
    ensures
        reply_fault(ReplyView::Lost(why), action) == Some(Fault::Reported(why)),
        reply_fault(ReplyView::Answer(status, body), action) == status_fault(status, action),
{
}

/// The folder at an address is found with one slash at the end of the address, however
/// many there were. The user's name is taken without white space around it, and the
/// password as it is.
pub proof fn law_folder_is_opened(
    base: Seq<char>,
    slashes: Seq<char>,
    username: Seq<char>,
    password: Seq<char>,
)
    requires
        base.len() > 0 ==> base.last() != '/',
        forall|i: int| 0 <= i < slashes.len() ==> #[trigger] slashes[i] == '/',
    ensures
        match url_parsed(base + seq!['/']) {
            Some((root, path)) => opened(base + slashes, username, password) == Ok::<
                WebDavView,
                Fault,
            >((WebDavView { root, path, username: trim(username), password })),
            None => opened(base + slashes, username, password) == Err::<WebDavView, Fault>(
                Fault::WebdavUrl,
            ),
        },
    decreases slashes.len(),
{
    reveal_strlit("/");
    assert("/"@ =~= seq!['/']);
    if slashes.len() > 0 {
        let init = slashes.drop_last();
        assert forall|i: int| 0 <= i < init.len() implies #[trigger] init[i] == '/' by {
            assert(init[i] == slashes[i]);
        }
        law_folder_is_opened(base, init, username, password);
        assert((base + slashes).last() == slashes[slashes.len() - 1]);
        assert((base + slashes).drop_last() =~= base + init);
    } else {
        assert(base + slashes =~= base);
    }
}

/// A path below the folder's own is taken without it; another path is taken whole.
pub proof fn law_own_path_is_cut_off(base: Seq<char>, below: Seq<char>, path: Seq<char>)
    ensures
        without_prefix(base + below, base) == below,
        !(path.len() >= base.len() && path.take(base.len() as int) == base) ==> without_prefix(
            path,
            base,
        ) == path,
{
    assert((base + below).take(base.len() as int) =~= base);
    assert((base + below).skip(base.len() as int) =~= below);
}

/// The contents of a folder are named in the order of the listing: each entry with a name
/// that is not empty, with whether it is a folder, and no other. The places that are
/// returned are those of the named entries.
pub proof fn law_entries_are_named_in_order(
    dav: WebDavView,
    separator: char,
    list: Seq<ListedView>,
) -> (res: Seq<int>)
    requires
        named_entries(dav, separator, list) is Ok,
    ensures
        ({
            let named = named_entries(dav, separator, list)->Ok_0;
            &&& res.len() == named.len()
            &&& forall|k: int|
                0 <= k < res.len() ==> 0 <= #[trigger] res[k] < list.len() && listed_name(
                    dav,
                    list[res[k]].href,
                    separator,
                ) == Ok::<Seq<char>, Fault>(named[k].0) && named[k].1 == list[res[k]].collection
                    && named[k].0.len() > 0
            &&& forall|k: int, j: int|
                0 <= k < j < res.len() ==> #[trigger] res[k] < #[trigger] res[j]
            &&& forall|i: int|
                0 <= i < list.len() ==> (listed_name(
                    dav,
                    (#[trigger] list[i]).href,
                    separator,
                ) matches Ok(name) && (name.len() > 0 ==> res.contains(i)))
        }),
    decreases list.len(),
{
    if list.len() == 0 {
        Seq::empty()
    } else {
        let init = list.drop_last();
        let n = init.len() as int;
        let before = law_entries_are_named_in_order(dav, separator, init);
        let name = listed_name(dav, list.last().href, separator)->Ok_0;
        let res = if name.len() == 0 {
            before
        } else {
            before.push(n)
        };
        assert forall|k: int| 0 <= k < before.len() implies list[#[trigger] before[k]]
            == init[before[k]] by {}
        assert forall|i: int| 0 <= i < list.len() implies (listed_name(
            dav,
            (#[trigger] list[i]).href,
            separator,
        ) matches Ok(name) && (name.len() > 0 ==> res.contains(i))) by {
            if i < n {
                assert(init[i] == list[i]);
                if (listed_name(dav, list[i].href, separator)->Ok_0).len() > 0 {
                    let k = choose|k: int| 0 <= k < before.len() && before[k] == i;
                    assert(res[k] == i);
                }
            } else if name.len() > 0 {
                assert(res[res.len() - 1] == i);
            }
        }
        res
    }
}

/// A folder that is not there holds nothing; an answer that is no success, or no listing,
/// is a failure.
pub proof fn law_missing_folder_is_empty(
    dav: WebDavView,
    separator: char,
    status: u16,
    body: Seq<u8>,
)
    ensures
        top_level(dav, separator, 404, body) == Ok::<Seq<(Seq<char>, bool)>, Fault>(Seq::empty()),
        status != 404 && !(200 <= status && status < 300) ==> top_level(
            dav,
            separator,
            status,
            body,
        ) is Err,
        200 <= status && status < 300 ==> match listing(shown_text(body)) {
            Ok(list) => top_level(dav, separator, status, body) == named_entries(
                dav,
                separator,
                list,
            ),
            Err(fault) => top_level(dav, separator, status, body) == Err::<
                Seq<(Seq<char>, bool)>,
                Fault,
            >(fault),
        },
{
}

/// A remote file is stored under the names of its path, whatever they are; one whose path
/// steps up is refused.
pub proof fn law_remote_file_is_stored_by_its_names(
    list: Seq<Seq<char>>,
    before: Seq<Seq<char>>,
    after: Seq<Seq<char>>,
)
    requires
        list.len() > 0,
        forall|i: int| 0 <= i < list.len() ==> simple_name(#[trigger] list[i]),
        forall|i: int| 0 <= i < before.len() ==> !(#[trigger] before[i]).contains('/'),
        forall|i: int| 0 <= i < after.len() ==> !(#[trigger] after[i]).contains('/'),
    ensures
        local_names(join(list, seq!['/'])) == Ok::<Seq<Seq<char>>, Fault>(list),
        local_names(join(before + seq![".."@] + after, seq!['/'])) == Err::<Seq<Seq<char>>, Fault>(
            Fault::RemotePath,
        ),
{
    law_path_of_names_is_read(list);
    law_steps_up_are_refused(before, after);
}

/// The methods have their names.
pub proof fn law_methods_have_their_names()
    ensures
        method_text(Method::Get) == "GET"@,
        method_text(Method::Put) == "PUT"@,
        method_text(Method::Delete) == "DELETE"@,
        method_text(Method::Propfind) == "PROPFIND"@,
        method_text(Method::Mkcol) == "MKCOL"@,
{
}

/// An address is where the encoded path leads from the folder's root, and a name is what
/// lies below the folder's path; where no address results, the reason is told.
pub proof fn law_addresses_start_at_the_root(
    dav: WebDavView,
    relative: Seq<char>,
    directory: bool,
    href: Seq<char>,
    separator: char,
)
    ensures
        url_joined(dav.root, encoded_reference(relative, directory)) matches Some((url, _))
            ==> address(dav.root, relative, directory) == Ok::<Seq<char>, Fault>(url),
        url_joined(dav.root, encoded_reference(relative, directory)) is None ==> address(
            dav.root,
            relative,
            directory,
        ) == Err::<Seq<char>, Fault>(
            Fault::RemoteUrl(url_error(dav.root, encoded_reference(relative, directory))),
        ),
        url_joined(dav.root, href) matches Some((_, path)) ==> listed_name(dav, href, separator)
            == Ok::<Seq<char>, Fault>(relative_of(dav.path, path, separator)),
        url_joined(dav.root, href) is None ==> listed_name(dav, href, separator) == Err::<
            Seq<char>,
            Fault,
        >(Fault::RemoteUrl(url_error(dav.root, href))),
{
}

/// A request carries the method, the depth and the body that it is made of, whatever they
/// are, and fails only for want of an address.
pub proof fn law_requests_carry_what_is_sent(
    method: Method,
    uri: Seq<char>,
    depth: Option<u8>,
    body: Seq<u8>,
    fault: Fault,
)
    ensures
        ({
            let sent = request(method, Ok(uri), depth, body);
            &&& sent is Ok
            &&& sent->Ok_0.method == method
            &&& sent->Ok_0.uri == uri
            &&& sent->Ok_0.depth == depth
            &&& sent->Ok_0.body == body
        }),
        request(method, Err(fault), depth, body) == Err::<RequestView, Fault>(fault),
{
}

/// Every date that a listing gives is looked at, and without a date there is no time.
pub proof fn law_given_dates_are_read(date: Seq<char>)
    ensures
        date_seconds(Some(date)) == http_date_seconds(date),
        date_seconds(None) is None,
{
}

} // verus!
