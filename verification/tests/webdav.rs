use rime_user_dict_sync::cleanup::CleanupStep;
use rime_user_dict_sync::encoding::{decode_path, encode_reference};
use rime_user_dict_sync::error::SyncError;
use rime_user_dict_sync::listing::{nests_within, parse_listing, read_listing, Listed, XmlNode};
use rime_user_dict_sync::probe::{Probe, ProbeStep};
use rime_user_dict_sync::walk::{place, Placed, Walk, WalkStep};
use rime_user_dict_sync::webdav::{
    check_reply, check_status, download_file, ensure_collection, file_time, relative_in,
    safe_local, CleanupOutcome, Method, RemoteFile, Reply, Request, WebDav,
};

fn dav() -> WebDav {
    WebDav::new("https://dav.example.com/rime-sync//", " user ", " pass ").ok().unwrap()
}

const LISTING: &str = r#"<?xml version="1.0"?>
<d:multistatus xmlns:d="DAV:" xmlns:x="other">
  <d:response>
    <d:href>/rime-sync/</d:href>
    <d:propstat><d:prop><d:resourcetype><d:collection/></d:resourcetype></d:prop></d:propstat>
  </d:response>
  <d:response>
    <d:href>/rime-sync/a%20b.txt</d:href>
    <d:propstat><d:prop><d:resourcetype/>
      <d:getlastmodified>Sun, 06 Nov 1994 08:49:37 GMT</d:getlastmodified></d:prop></d:propstat>
  </d:response>
  <d:response>
    <d:href>https://dav.example.com/rime-sync/%E8%AF%8D/</d:href>
    <d:propstat><d:prop><d:resourcetype><d:collection/></d:resourcetype></d:prop></d:propstat>
  </d:response>
  <d:response><d:href>c.txt</d:href><x:collection/></d:response>
</d:multistatus>"#;

const INNER: &str = r#"<multistatus xmlns="DAV:">
  <response><href>/rime-sync/%E8%AF%8D/</href><collection/></response>
  <response><href>/rime-sync/%E8%AF%8D/x.yaml</href><getlastmodified>bad</getlastmodified></response>
</multistatus>"#;

#[test]
fn folder_address_ends_in_one_slash() {
    let dav = dav();
    assert_eq!(dav.root, "https://dav.example.com/rime-sync/");
    assert_eq!(dav.path, "/rime-sync/");
    assert_eq!(dav.username, "user");
    assert_eq!(dav.password, " pass ");
    assert_eq!(WebDav::new("https://dav.example.com/rime-sync", "", "").ok().unwrap().root, dav.root);
    assert_eq!(WebDav::new("no address", "u", "p").err(), Some(SyncError::WebdavUrl));
    assert_eq!(SyncError::WebdavUrl.message(), "WebDAV 地址无效");
}

#[test]
fn addresses_are_encoded() {
    let dav = dav();
    assert_eq!(dav.uri("", true).unwrap(), "https://dav.example.com/rime-sync/");
    assert_eq!(
        dav.uri("a b/词+.txt", false).unwrap(),
        "https://dav.example.com/rime-sync/a%20b/%E8%AF%8D%2B.txt"
    );
    assert_eq!(dav.uri("a\\b//c", true).unwrap(), "https://dav.example.com/rime-sync/a/b/c/");
    assert_eq!(encode_reference("~a%20*-._Z9/", true), "%7Ea%2520*-._Z9/");
    assert_eq!(encode_reference("", true), "");
    assert_eq!(decode_path("%7Ea%2520*-._Z9%zz%4"), "~a%20*-._Z9%zz%4");
    assert_eq!(decode_path("%E8%AF%8D%ff"), "词\u{fffd}");
}

#[test]
fn encoded_path_is_decoded() {
    for path in ["a", "a b/c+d", "词库/𤭢 %41/&?#;:=", "x*y-z._~!'()"] {
        assert_eq!(decode_path(&encode_reference(path, false)), path);
    }
}

#[test]
fn listed_name_is_stored_name() {
    let dav = dav();
    for path in ["a", "a b/c+d", "词库/𤭢 %41/&?#;:=", "x*y-z._~!'()"] {
        let uri = dav.uri(path, false).unwrap();
        assert_eq!(dav.relative_from_href(&uri, '/').unwrap(), path);
        let absolute = format!("/rime-sync/{}", encode_reference(path, false));
        assert_eq!(dav.relative_from_href(&absolute, '/').unwrap(), path);
    }
    assert_eq!(dav.relative_from_href("/rime-sync/a/b", '\\').unwrap(), "a\\b");
    assert_eq!(dav.relative_from_href("/elsewhere/a", '/').unwrap(), "elsewhere/a");
    assert_eq!(dav.relative_from_href("", '/').unwrap(), "");
    assert_eq!(
        dav.relative_from_href("https://[", '/'),
        Err(SyncError::RemoteUrl("invalid IPv6 address".to_owned()))
    );
    assert_eq!(relative_in("/base/", "/base//x%2Fy", '|'), "x|y");
    assert_eq!(relative_in("/base/", "/other/x", '/'), "other/x");
    assert_eq!(SyncError::RemoteUrl("empty host".to_owned()).message(), "empty host");
}

#[test]
fn uploaded_file_is_listed_under_its_own_name() {
    for url in ["https://h/d/", "http://user@h:8443", "https://h/a-b/%E8%AF%8D"] {
        let dav = WebDav::new(url, "u", "p").ok().unwrap();
        for path in ["a", "a b/c+d", "词库/𤭢 %41/&?#;:=", "%2e/%2e%2e", ".../2e", "x*y-z._~!'()"] {
            assert_eq!(dav.listed_as(path, '/').unwrap(), path);
        }
        assert_eq!(dav.listed_as("a/b", '\\').unwrap(), "a\\b");
        assert_ne!(dav.listed_as("a/../b", '/').unwrap(), "a/../b");
    }
    assert_eq!(dav().listed_as("", '/').unwrap(), "");
}

#[test]
fn deep_listings_are_refused() {
    let nested = |n: usize| format!("{}{}", "<a>".repeat(n), "</a>".repeat(n));
    assert_eq!(parse_listing(&nested(256)).unwrap(), Vec::new());
    let named = format!("{}{}", "<d:a xmlns:d='DAV:' x='y'>".repeat(256), "</d:a>".repeat(256));
    assert_eq!(parse_listing(&named).unwrap(), Vec::new());
    assert_eq!(parse_listing(&nested(257)), Err(SyncError::WebdavXml));
    assert_eq!(parse_listing(&"<a>".repeat(1_000_000)), Err(SyncError::WebdavXml));
    let wide = format!("<a>{}</a>", "<b x='>' y=\"/>\">/></b><c/><!-- </a> <d> --><![CDATA[<e>]]><?f <g> ?>".repeat(1000));
    assert_eq!(parse_listing(&wide).unwrap(), Vec::new());
    assert!(nests_within(&wide, 2) && !nests_within(&wide, 1));
    for hidden in ["<!-- </a> -->", "<![CDATA[</a>]]>", "<?p </a>?>", "/>", "<b/>"] {
        let text = format!("<a>{hidden}").repeat(300);
        assert!(!nests_within(&text, 299), "{hidden}");
        assert_eq!(parse_listing(&text), Err(SyncError::WebdavXml));
    }
    assert!(nests_within("", 0) && nests_within("</a>", 0) && !nests_within("<a/>", 0));
}

#[test]
fn statuses_are_judged() {
    for status in [200, 201, 204, 207, 299] {
        assert_eq!(check_status(status, "上传"), Ok(()));
    }
    assert_eq!(check_status(401, "上传"), Err(SyncError::Unauthorized("上传".to_owned())));
    assert_eq!(
        check_status(404, "上传").unwrap_err().message(),
        "上传失败: HTTP 404 Not Found"
    );
    assert_eq!(
        check_status(799, "下载").unwrap_err().message(),
        "下载失败: HTTP 799 <unknown status code>"
    );
    assert_eq!(
        check_status(401, "列出 WebDAV").unwrap_err().message(),
        "列出 WebDAV失败: HTTP 401 Unauthorized（请核对用户名大小写和密码，并确认该账号拥有 WebDAV 目录权限）"
    );
    assert_eq!(
        check_reply(&Reply::Lost("timed out".to_owned()), "x"),
        Err(SyncError::Reported("timed out".to_owned()))
    );
    assert_eq!(check_reply(&Reply::Answer(200, Vec::new()), "x"), Ok(()));
}

#[test]
fn missing_folders_are_made() {
    assert_eq!(ensure_collection(207), Ok(false));
    assert_eq!(ensure_collection(404), Ok(true));
    assert_eq!(
        ensure_collection(500).unwrap_err().message(),
        "检查 WebDAV 目录失败: HTTP 500 Internal Server Error"
    );
}

#[test]
fn requests_are_prepared() {
    let dav = dav();
    assert_eq!(
        dav.request(Method::Mkcol, "a", true).unwrap(),
        Request {
            method: Method::Mkcol,
            uri: "https://dav.example.com/rime-sync/a/".to_owned(),
            depth: None,
            body: Vec::new(),
        }
    );
    let list = dav.list_request("").unwrap();
    assert_eq!(list.method.name(), "PROPFIND");
    assert_eq!(list.depth, Some(1));
    assert_eq!(
        list.body,
        br#"<?xml version="1.0"?><propfind xmlns="DAV:"><prop><resourcetype/><getlastmodified/></prop></propfind>"#.to_vec()
    );
    let probe = dav.collection_request("a").unwrap();
    assert_eq!((probe.depth, probe.body.len()), (Some(0), 0));
    let upload = dav.upload_file("a/b/c.txt", b"x".to_vec()).ok().unwrap();
    assert_eq!(upload.parent, Some("a/b".to_owned()));
    assert_eq!(upload.request.method.name(), "PUT");
    assert_eq!(upload.request.body, b"x".to_vec());
    assert_eq!(dav.upload_file("c.txt", Vec::new()).ok().unwrap().parent, None);
    assert_eq!(dav.upload_file("/c.txt", Vec::new()).ok().unwrap().parent, None);
    assert_eq!(Method::Get.name(), "GET");
    assert_eq!(Method::Delete.name(), "DELETE");
    assert_eq!(Method::Mkcol.name(), "MKCOL");
}

#[test]
fn downloads_stay_inside_the_folder() {
    let dav = dav();
    let file = RemoteFile { relative: "a/b c".to_owned(), modified: Some(7) };
    let plan = dav.download(&file).ok().unwrap();
    assert_eq!(plan.names, vec!["a", "b c"]);
    assert_eq!(plan.request.uri, "https://dav.example.com/rime-sync/a/b%20c");
    assert_eq!(plan.modified, Some(7));
    let evil = RemoteFile { relative: "../evil".to_owned(), modified: None };
    assert_eq!(dav.download(&evil).err(), Some(SyncError::RemotePath));
    assert_eq!(safe_local("/abs"), Err(SyncError::RemotePath));
    assert_eq!(safe_local("a\\b/../c"), Err(SyncError::RemotePath));
    assert_eq!(safe_local("c:/../d"), Err(SyncError::RemotePath));
    assert_eq!(safe_local("ok/file").unwrap(), vec!["ok", "file"]);
    assert_eq!(SyncError::RemotePath.message(), "WebDAV 返回越界路径");
}

#[test]
fn listing_time_comes_before_the_header() {
    let date = "Sun, 06 Nov 1994 08:49:37 GMT";
    assert_eq!(download_file(Some(5), Some(date)), Some(5));
    assert_eq!(download_file(None, Some(date)), Some(784111777));
    assert_eq!(download_file(None, Some("never")), None);
    assert_eq!(download_file(None, None), None);
    assert_eq!(file_time(None, Some(3)), Some(3));
    assert_eq!(file_time(Some(2), Some(3)), Some(2));
}

#[test]
fn listings_are_read() {
    let list = parse_listing(LISTING).unwrap();
    let hrefs: Vec<&str> = list.iter().map(|entry| entry.href.as_str()).collect();
    assert_eq!(
        hrefs,
        vec![
            "/rime-sync/",
            "/rime-sync/a%20b.txt",
            "https://dav.example.com/rime-sync/%E8%AF%8D/",
            "c.txt",
        ]
    );
    let folders: Vec<bool> = list.iter().map(|entry| entry.collection).collect();
    assert_eq!(folders, vec![true, false, true, false]);
    assert_eq!(list[1].modified.as_deref(), Some("Sun, 06 Nov 1994 08:49:37 GMT"));
    assert_eq!(list[0].modified, None);
    assert_eq!(parse_listing("<a>"), Err(SyncError::WebdavXml));
    assert_eq!(parse_listing("<a/>").unwrap(), Vec::new());
    assert_eq!(SyncError::WebdavXml.message(), "解析 WebDAV XML 失败");
}

#[test]
fn responses_are_read_from_nodes() {
    let node = |namespace: Option<&str>, name: &str, text: Option<&str>, size: usize| XmlNode {
        namespace: namespace.map(str::to_owned),
        name: name.to_owned(),
        text: text.map(str::to_owned),
        size,
    };
    let nodes = vec![
        node(Some("DAV:"), "response", None, 2),
        node(Some("other"), "href", Some("no"), 1),
        node(Some("DAV:"), "href", Some("outside"), 1),
        node(Some("DAV:"), "response", None, 99),
        node(Some("DAV:"), "href", Some("x"), 1),
        node(None, "collection", None, 1),
    ];
    assert_eq!(
        read_listing(&nodes),
        vec![
            Listed { href: String::new(), collection: false, modified: None },
            Listed { href: "x".to_owned(), collection: false, modified: None },
        ]
    );
}

fn listed(step: WalkStep) -> (Walk, String) {
    match step {
        WalkStep::List(walk, dir) => (walk, dir),
        _ => panic!("no folder to list"),
    }
}

#[test]
fn walk_goes_through_folders_in_order() {
    let dav = dav();
    let (walk, dir) = listed(dav.list_recursive('/'));
    assert_eq!(dir, "");
    let (walk, dir) = listed(dav.resume(walk, &dir, 207, &LISTING.as_bytes().to_vec()));
    assert_eq!(dir, "词");
    match dav.resume(walk, &dir, 207, &INNER.as_bytes().to_vec()) {
        WalkStep::Done(files) => assert_eq!(
            files,
            vec![
                RemoteFile { relative: "a b.txt".to_owned(), modified: Some(784111777) },
                RemoteFile { relative: "词/x.yaml".to_owned(), modified: None },
                RemoteFile { relative: "c.txt".to_owned(), modified: None },
            ]
        ),
        _ => panic!("the walk is not done"),
    }
}

#[test]
fn entries_are_placed() {
    let name = |text: &str| text.to_owned();
    assert_eq!(place("", true, name(""), None), Placed::Skipped);
    assert_eq!(place("a", true, name("a/"), None), Placed::Skipped);
    assert_eq!(place("a/", false, name("a"), None), Placed::Skipped);
    assert_eq!(place("a", true, name("a/b//"), None), Placed::Folder(name("a/b")));
    assert_eq!(
        place("a", false, name("a/c/"), Some(1)),
        Placed::File(RemoteFile { relative: name("a/c/"), modified: Some(1) })
    );
}

#[test]
fn walk_takes_missing_folders_as_empty() {
    let dav = dav();
    let (walk, dir) = listed(dav.list_recursive('/'));
    assert!(matches!(dav.resume(walk, &dir, 404, &Vec::new()), WalkStep::Done(files) if files.is_empty()));
    let (walk, dir) = listed(dav.list_recursive('/'));
    match dav.resume(walk, &dir, 403, &Vec::new()) {
        WalkStep::Failed(e) => assert_eq!(e.message(), "列出 WebDAV失败: HTTP 403 Forbidden"),
        _ => panic!("the walk goes on"),
    }
    let (walk, dir) = listed(dav.list_recursive('/'));
    assert!(matches!(
        dav.resume(walk, &dir, 200, &b"<".to_vec()),
        WalkStep::Failed(SyncError::WebdavXml)
    ));
}

#[test]
fn ill_formed_bytes_do_not_stop_a_walk() {
    let dav = dav();
    let (walk, dir) = listed(dav.list_recursive('/'));
    let mut body = b"<multistatus xmlns='DAV:'><response><href>a</href><note>".to_vec();
    body.push(0xff);
    body.extend_from_slice(b"</note></response></multistatus>");
    assert!(matches!(
        dav.resume(walk, &dir, 207, &body),
        WalkStep::Done(files) if files == vec![RemoteFile { relative: "a".to_owned(), modified: None }]
    ));
}

#[test]
fn top_level_is_cleaned_up() {
    let dav = dav();
    let entries = dav.list_top_level(207, &LISTING.as_bytes().to_vec(), '/').unwrap();
    assert_eq!(
        entries,
        vec![("a b.txt".to_owned(), false), ("词/".to_owned(), true), ("c.txt".to_owned(), false)]
    );
    assert_eq!(dav.list_top_level(404, &Vec::new(), '/').unwrap(), Vec::new());
    assert!(dav.list_top_level(500, &Vec::new(), '/').is_err());
    let mut outcome = CleanupOutcome::new();
    outcome.record("a".to_owned(), &Reply::Answer(204, Vec::new()));
    outcome.record("b".to_owned(), &Reply::Answer(404, Vec::new()));
    outcome.record("c".to_owned(), &Reply::Answer(403, Vec::new()));
    outcome.record("d".to_owned(), &Reply::Lost("gone".to_owned()));
    assert_eq!(outcome.removed, vec!["a", "b"]);
    assert_eq!(
        outcome.failed,
        vec![
            ("c".to_owned(), "HTTP 403 Forbidden".to_owned()),
            ("d".to_owned(), "gone".to_owned()),
        ]
    );
}

/// Cleans the listed folder up; the requests that were sent, and the outcome.
fn clean_up(keep: &[&str], replies: Vec<Reply>) -> (Vec<String>, CleanupOutcome) {
    let dav = dav();
    let keep = keep.iter().map(|name| (*name).to_owned()).collect();
    let mut step = dav.cleanup_except(&keep, '/', 207, &LISTING.as_bytes().to_vec());
    let mut uris = Vec::new();
    for reply in replies {
        match step {
            CleanupStep::Send(cleanup, request) => {
                assert_eq!(request.method, Method::Delete);
                uris.push(request.uri);
                step = dav.resume_cleanup(cleanup, &reply);
            }
            _ => panic!("nothing to remove"),
        }
    }
    match step {
        CleanupStep::Done(outcome) => (uris, outcome),
        _ => panic!("the cleanup is not done"),
    }
}

#[test]
fn everything_but_the_kept_is_removed() {
    let (uris, outcome) =
        clean_up(&["c.txt"], vec![Reply::Answer(500, Vec::new()), Reply::Answer(204, Vec::new())]);
    assert_eq!(
        uris,
        vec![
            "https://dav.example.com/rime-sync/a%20b.txt",
            "https://dav.example.com/rime-sync/%E8%AF%8D/",
        ]
    );
    assert_eq!(outcome.removed, vec!["词/"]);
    let why = "HTTP 500 Internal Server Error".to_owned();
    assert_eq!(outcome.failed, vec![("a b.txt".to_owned(), why)]);
    let (uris, outcome) = clean_up(&["a b.txt", "词/", "c.txt"], Vec::new());
    assert!(uris.is_empty() && outcome.removed.is_empty() && outcome.failed.is_empty());
    let lost = || Reply::Lost("gone".to_owned());
    let (uris, outcome) = clean_up(&[], vec![lost(), lost(), lost()]);
    assert_eq!((uris.len(), outcome.removed.len(), outcome.failed.len()), (3, 0, 3));
}

#[test]
fn cleanup_needs_a_listing() {
    let dav = dav();
    assert!(matches!(
        dav.cleanup_except(&Vec::new(), '/', 404, &Vec::new()),
        CleanupStep::Done(outcome) if outcome.removed.is_empty() && outcome.failed.is_empty()
    ));
    match dav.cleanup_except(&Vec::new(), '/', 403, &Vec::new()) {
        CleanupStep::Failed(e) => assert_eq!(e.message(), "列出 WebDAV失败: HTTP 403 Forbidden"),
        _ => panic!("the cleanup goes on"),
    }
}

fn sent(step: ProbeStep) -> (Probe, Request) {
    match step {
        ProbeStep::Send(probe, request) => (probe, request),
        _ => panic!("nothing to send"),
    }
}

fn ok(body: &[u8]) -> Reply {
    Reply::Answer(200, body.to_vec())
}

#[test]
fn connection_test_passes_if_all_goes_well() {
    let (probe, request) = sent(dav().test(42));
    assert_eq!(request.method, Method::Put);
    assert_eq!(request.uri, "https://dav.example.com/rime-sync/.rime-sync-test-42.tmp");
    assert_eq!(request.body, b"rime-webdav-test".to_vec());
    let (probe, request) = sent(probe.answer(&ok(b"")));
    assert_eq!(request.method, Method::Get);
    let (probe, request) = sent(probe.answer(&ok(b"rime-webdav-test")));
    assert_eq!(request.method, Method::Delete);
    assert!(matches!(probe.answer(&ok(b"")), ProbeStep::Passed));
}

#[test]
fn connection_test_fails_if_anything_fails() {
    let (probe, _) = sent(dav().test(1));
    match probe.answer(&Reply::Answer(403, Vec::new())) {
        ProbeStep::Failed(e) => {
            assert_eq!(e.message(), "上传 WebDAV 测试文件失败: HTTP 403 Forbidden")
        }
        _ => panic!("the test goes on"),
    }
    for download in [ok(b"other"), Reply::Lost("lost".to_owned()), Reply::Answer(500, Vec::new())] {
        let (probe, _) = sent(dav().test(1));
        let (probe, _) = sent(probe.answer(&ok(b"")));
        let (probe, request) = sent(probe.answer(&download));
        assert_eq!(request.method, Method::Delete);
        assert!(matches!(probe.answer(&ok(b"")), ProbeStep::Failed(_)));
    }
    let (probe, _) = sent(dav().test(1));
    let (probe, _) = sent(probe.answer(&ok(b"")));
    let (probe, _) = sent(probe.answer(&ok(b"rime-webdav-test")));
    assert!(matches!(
        probe.answer(&Reply::Answer(403, Vec::new())),
        ProbeStep::Failed(SyncError::Http(_, _))
    ));
    assert_eq!(SyncError::ProbeMismatch.message(), "WebDAV 测试文件内容不一致");
}
