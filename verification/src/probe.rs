//! The test of a WebDAV connection: a small file is uploaded, downloaded and removed.
//!
//! The caller sends the requests and hands the replies back.
use vstd::prelude::*;

use vstd::utf8::encode_utf8;

use crate::error::{Fault, SyncError};
use crate::text::{decimal, decimal_text, law_digits_denote_the_number};
use crate::webdav::{
    address, check_reply, reply_fault, valid_reply, Method, Reply, ReplyView, Request,
    RequestView, WebDav, WebDavView,
};

verus! {

/// The name of the test file with the given number.
pub open spec fn probe_name(number: u32) -> Seq<char> {
    ".rime-sync-test-"@ + decimal(number as nat) + ".tmp"@
}

/// What the test file holds.
pub open spec fn probe_data() -> Seq<u8> {
    encode_utf8("rime-webdav-test"@)
}

/// Which reply a test waits for.
#[derive(Clone, Copy, Debug, PartialEq, Eq, Structural)]
pub enum Stage {
    Upload,
    Download,
    Remove,
}

/// A test that waits for a reply.
pub struct Probe {
    pub uri: String,
    pub stage: Stage,
    /// Why the test has failed, if it has.
    pub failed: Option<SyncError>,
}

/// What a [`Probe`] says.
pub struct ProbeView {
    pub uri: Seq<char>,
    pub stage: Stage,
    pub failed: Option<Fault>,
}

impl View for Probe {
    type V = ProbeView;

    open spec fn view(&self) -> ProbeView {
        ProbeView {
            uri: self.uri@,
            stage: self.stage,
            failed: match self.failed {
                Some(e) => Some(e@),
                None => None,
            },
        }
    }
}

/// How a test goes on.
pub enum ProbeStep {
    /// A request has to be sent.
    Send(Probe, Request),
    /// The connection works.
    Passed,
    /// The connection does not work.
    Failed(SyncError),
}

/// What a [`ProbeStep`] says.
pub enum ProbeStepView {
    Send(ProbeView, RequestView),
    Passed,
    Failed(Fault),
}

impl View for ProbeStep {
    type V = ProbeStepView;

    open spec fn view(&self) -> ProbeStepView {
        match self {
            ProbeStep::Send(probe, request) => ProbeStepView::Send(probe@, request@),
            ProbeStep::Passed => ProbeStepView::Passed,
            ProbeStep::Failed(e) => ProbeStepView::Failed(e@),
        }
    }
}

/// The step that sends a request for the test file.
pub open spec fn sent(
    uri: Seq<char>,
    stage: Stage,
    method: Method,
    body: Seq<u8>,
    failed: Option<Fault>,
) -> ProbeStepView {
    ProbeStepView::Send(
        ProbeView { uri, stage, failed },
        RequestView { method, uri, depth: None, body },
    )
}

/// How a test starts.
pub open spec fn probed(dav: WebDavView, number: u32) -> ProbeStepView {
    match address(dav.root, probe_name(number), false) {
        Ok(uri) => sent(uri, Stage::Upload, Method::Put, probe_data(), None),
        Err(fault) => ProbeStepView::Failed(fault),
    }
}

/// What the reply to the download says of the connection.
pub open spec fn download_fault(reply: ReplyView) -> Option<Fault> {
    match reply_fault(reply, "下载 WebDAV 测试文件"@) {
        Some(fault) => Some(fault),
        None => if reply->Answer_1 != probe_data() {
            Some(Fault::ProbeMismatch)
        } else {
            None
        },
    }
}

/// How a test goes on after a reply. Once the file was uploaded it is removed, whatever
/// the download gave; the first failure is the one that is told.
pub open spec fn answered(probe: ProbeView, reply: ReplyView) -> ProbeStepView {
    match probe.stage {
        Stage::Upload => match reply_fault(reply, "上传 WebDAV 测试文件"@) {
            Some(fault) => ProbeStepView::Failed(fault),
            None => sent(probe.uri, Stage::Download, Method::Get, Seq::empty(), None),
        },
        Stage::Download => sent(
            probe.uri,
            Stage::Remove,
            Method::Delete,
            Seq::empty(),
            download_fault(reply),
        ),
        Stage::Remove => match probe.failed {
            Some(fault) => ProbeStepView::Failed(fault),
            None => match reply_fault(reply, "删除 WebDAV 测试文件"@) {
                Some(fault) => ProbeStepView::Failed(fault),
                None => ProbeStepView::Passed,
            },
        },
    }
}

fn same_bytes(a: &Vec<u8>, b: &Vec<u8>) -> (res: bool)
    ensures
        res == (a@ == b@),
{
    if a.len() != b.len() {
        return false;
    }
    let mut i: usize = 0;
    while i < a.len()
        invariant
            i <= a@.len(),
            a@.len() == b@.len(),
            forall|j: int| 0 <= j < i ==> a@[j] == b@[j],
        decreases a@.len() - i,
    {
        if a[i] != b[i] {
            return false;
        }
        i = i + 1;
    }
    assert(a@ =~= b@);
    true
}

fn send(uri: String, stage: Stage, method: Method, body: Vec<u8>, failed: Option<SyncError>) -> (res:
    ProbeStep)
    ensures
        res@ == sent(
            uri@,
            stage,
            method,
            body@,
            match failed {
                Some(e) => Some(e@),
                None => None,
            },
        ),
{
    let copy = uri.clone();
    ProbeStep::Send(
        Probe { uri: copy, stage, failed },
        Request { method, uri, depth: None, body },
    )
}

fn nothing() -> (res: Vec<u8>)
    ensures
        res@ == Seq::<u8>::empty(),
{
    Vec::new()
}

impl WebDav {
    /// Starts a test of the connection.
    pub fn test(&self, number: u32) -> (res: ProbeStep)
        ensures
            res@ == probed(self@, number),
    {
        let mut name = ".rime-sync-test-".to_owned();
        name.append(decimal_text(number as u64).as_str());
        name.append(".tmp");
        match self.uri(name.as_str(), false) {
            Ok(uri) => send(
                uri,
                Stage::Upload,
                Method::Put,
                "rime-webdav-test".as_bytes_vec(),
                None,
            ),
            Err(e) => ProbeStep::Failed(e),
        }
    }
}

impl Probe {
    /// Goes on after a reply.
    pub fn answer(self, reply: &Reply) -> (res: ProbeStep)
        requires
            valid_reply(reply@),
        ensures
            res@ == answered(self@, reply@),
    {
        match self.stage {
            Stage::Upload => match check_reply(reply, "上传 WebDAV 测试文件") {
                Ok(_) => send(self.uri, Stage::Download, Method::Get, nothing(), None),
                Err(e) => ProbeStep::Failed(e),
            },
            Stage::Download => {
                let failed = match check_reply(reply, "下载 WebDAV 测试文件") {
                    Err(e) => Some(e),
                    Ok(_) => {
                        let expected = "rime-webdav-test".as_bytes_vec();
                        match reply {
                            Reply::Answer(_, body) => if same_bytes(body, &expected) {
                                None
                            } else {
                                Some(SyncError::ProbeMismatch)
                            },
                            Reply::Lost(_) => None,
                        }
                    },
                };
                send(self.uri, Stage::Remove, Method::Delete, nothing(), failed)
            },
            Stage::Remove => match self.failed {
                Some(e) => ProbeStep::Failed(e),
                None => match check_reply(reply, "删除 WebDAV 测试文件") {
                    Ok(_) => ProbeStep::Passed,
                    Err(e) => ProbeStep::Failed(e),
                },
            },
        }
    }
}

/// A test passes exactly if the file was uploaded, came back unchanged and was removed.
pub proof fn law_test_passes_only_if_all_went_well(
    uri: Seq<char>,
    upload: ReplyView,
    download: ReplyView,
    removal: ReplyView,
)
    ensures
        ({
            let first = answered(
                ProbeView { uri, stage: Stage::Upload, failed: None },
                upload,
            );
            let second = answered(first->Send_0, download);
            let third = answered(second->Send_0, removal);
            (first is Send && second is Send && third is Passed) <==> {
                &&& reply_fault(upload, "上传 WebDAV 测试文件"@) is None
                &&& reply_fault(download, "下载 WebDAV 测试文件"@) is None
                &&& download->Answer_1 == probe_data()
                &&& reply_fault(removal, "删除 WebDAV 测试文件"@) is None
            }
        }),
{
}

/// A test file that was uploaded is removed, whatever the download gives.
pub proof fn law_uploaded_test_file_is_removed(
    uri: Seq<char>,
    upload: ReplyView,
    download: ReplyView,
)
    requires
        reply_fault(upload, "上传 WebDAV 测试文件"@) is None,
    ensures
        ({
            let first = answered(
                ProbeView { uri, stage: Stage::Upload, failed: None },
                upload,
            );
            let second = answered(first->Send_0, download);
            &&& first is Send
            &&& second is Send
            &&& second->Send_1.method == Method::Delete
            &&& second->Send_1.uri == uri
        }),
{
}

/// Tests with different numbers use different files.
pub proof fn law_test_files_have_their_own_names(a: u32, b: u32)
    ensures
        probe_name(a) == probe_name(b) ==> a == b,
{
    let (x, y) = (decimal(a as nat), decimal(b as nat));
    let n = ".rime-sync-test-"@.len() as int;
    let m = ".tmp"@.len() as int;
    law_digits_denote_the_number(a as nat);
    law_digits_denote_the_number(b as nat);
    if probe_name(a) == probe_name(b) {
        assert(probe_name(a).subrange(n, probe_name(a).len() - m) =~= x);
        assert(probe_name(b).subrange(n, probe_name(b).len() - m) =~= y);
    }
}

/// A test uploads its text, downloads it and removes it, at one address.
pub proof fn law_test_asks_for_one_file(
    dav: WebDavView,
    number: u32,
    upload: ReplyView,
    download: ReplyView,
)
    requires
        probed(dav, number) is Send,
        reply_fault(upload, "上传 WebDAV 测试文件"@) is None,
    ensures
        ({
            let first = probed(dav, number);
            let second = answered(first->Send_0, upload);
            let third = answered(second->Send_0, download);
            let uri = first->Send_1.uri;
            &&& address(dav.root, probe_name(number), false) == Ok::<Seq<char>, Fault>(uri)
            &&& first->Send_1 == RequestView {
                method: Method::Put,
                uri,
                depth: None,
                body: encode_utf8("rime-webdav-test"@),
            }
            &&& second is Send
            &&& second->Send_1 == RequestView {
                method: Method::Get,
                uri,
                depth: None,
                body: Seq::empty(),
            }
            &&& third is Send
            &&& third->Send_1 == RequestView {
                method: Method::Delete,
                uri,
                depth: None,
                body: Seq::empty(),
            }
        }),
{
}

} // verus!
