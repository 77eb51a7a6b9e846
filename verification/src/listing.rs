//! The answer of a WebDAV server to a request for a folder's contents.
use vstd::prelude::*;

use crate::error::{Fault, SyncError};
use crate::text::{chars_of, first_at, has_at, optional_view, same_text, stands_at};

verus! {

/// A node of an XML document, as far as a listing reads it.
#[derive(Debug, PartialEq, Eq)]
pub struct XmlNode {
    /// The namespace of an element's tag.
    pub namespace: Option<String>,
    /// The local name of an element's tag; empty for other nodes.
    pub name: String,
    /// The node's text: that of an element is its first child's, if that is text.
    pub text: Option<String>,
    /// How many nodes the node and everything below it are.
    pub size: usize,
}

/// What an [`XmlNode`] says.
pub struct NodeView {
    pub namespace: Option<Seq<char>>,
    pub name: Seq<char>,
    pub text: Option<Seq<char>>,
    pub size: nat,
}

impl View for XmlNode {
    type V = NodeView;

    open spec fn view(&self) -> NodeView {
        NodeView {
            namespace: optional_view(self.namespace),
            name: self.name@,
            text: optional_view(self.text),
            size: self.size as nat,
        }
    }
}

/// What a list of nodes says.
pub open spec fn node_views(nodes: Seq<XmlNode>) -> Seq<NodeView> {
    nodes.map_values(|node: XmlNode| node@)
}

/// The error of a text that is not XML.
#[verifier::external_type_specification]
#[verifier::external_body]
pub struct ExXmlError(roxmltree::Error);

/// Where the first `pat` from `i` on ends, or else the text.
pub open spec fn past(text: Seq<char>, pat: Seq<char>, i: int) -> int {
    match first_at(text, pat, i) {
        Some(j) => j + pat.len(),
        None => text.len() as int,
    }
}

/// Where the tag ends in which `i` lies: at the first `>` outside of quotes. `quote` is
/// the quote that is open at `i`.
pub open spec fn tag_end(text: Seq<char>, i: int, quote: Option<char>) -> int
    decreases text.len() - i,
{
    if i < 0 || i >= text.len() {
        text.len() as int
    } else {
        match quote {
            Some(q) => tag_end(text, i + 1, if text[i] == q { None } else { quote }),
            None => if text[i] == '>' {
                i
            } else if text[i] == '"' || text[i] == '\'' {
                tag_end(text, i + 1, Some(text[i]))
            } else {
                tag_end(text, i + 1, None)
            },
        }
    }
}

/// Where what the `<` at `i` begins is passed over: a comment, a section of character
/// data, a processing instruction, a closing tag or a tag that opens an element.
pub open spec fn markup_end(text: Seq<char>, i: int) -> int {
    if has_at(text, i, "<!--"@) {
        past(text, "-->"@, i + 4)
    } else if has_at(text, i, "<![CDATA["@) {
        past(text, "]]>"@, i + 9)
    } else if has_at(text, i, "<?"@) {
        past(text, "?>"@, i + 2)
    } else if has_at(text, i, "</"@) {
        i + 2
    } else if tag_end(text, i + 1, None) < text.len() {
        tag_end(text, i + 1, None) + 1
    } else {
        text.len() as int
    }
}

/// The `<` at `i` begins no tag.
pub open spec fn no_tag(text: Seq<char>, i: int) -> bool {
    has_at(text, i, "<!--"@) || has_at(text, i, "<![CDATA["@) || has_at(text, i, "<?"@)
}

/// The `<` at `i` begins a tag that opens an element.
pub open spec fn opens(text: Seq<char>, i: int) -> bool {
    !no_tag(text, i) && !has_at(text, i, "</"@)
}

/// The tag that `i` begins also closes its element.
pub open spec fn closes_itself(text: Seq<char>, i: int) -> bool {
    let e = tag_end(text, i + 1, None);
    e < text.len() && text[e - 1] == '/'
}

/// How many elements are open after the markup at `i`, if `depth` are before it.
pub open spec fn depth_after(text: Seq<char>, i: int, depth: nat) -> nat {
    if no_tag(text, i) {
        depth
    } else if has_at(text, i, "</"@) {
        if depth > 0 {
            (depth - 1) as nat
        } else {
            0
        }
    } else if closes_itself(text, i) {
        depth
    } else {
        depth + 1
    }
}

proof fn lemma_past(text: Seq<char>, pat: Seq<char>, i: int)
    requires
        0 <= i,
    ensures
        i <= past(text, pat, i) || past(text, pat, i) == text.len(),
        past(text, pat, i) <= text.len(),
    decreases text.len() + 1 - i,
{
    if i <= text.len() && !has_at(text, i, pat) {
        lemma_past(text, pat, i + 1);
    }
}

proof fn lemma_tag_end(text: Seq<char>, i: int, quote: Option<char>)
    requires
        0 <= i,
    ensures
        i <= tag_end(text, i, quote) || tag_end(text, i, quote) == text.len(),
        tag_end(text, i, quote) <= text.len(),
    decreases text.len() - i,
{
    if i < text.len() {
        match quote {
            Some(q) => lemma_tag_end(text, i + 1, if text[i] == q { None } else { quote }),
            None => if text[i] == '"' || text[i] == '\'' {
                lemma_tag_end(text, i + 1, Some(text[i]));
            } else {
                lemma_tag_end(text, i + 1, None);
            },
        }
    }
}

pub proof fn lemma_markup_end(text: Seq<char>, i: int)
    requires
        0 <= i < text.len(),
    ensures
        i < markup_end(text, i) <= text.len(),
{
    reveal_strlit("</");
    lemma_past(text, "-->"@, i + 4);
    lemma_past(text, "]]>"@, i + 9);
    lemma_past(text, "?>"@, i + 2);
    lemma_tag_end(text, i + 1, None);
}

/// How many elements lie in one another, at most, from `i` on, where `depth` are open.
pub open spec fn nesting(text: Seq<char>, i: int, depth: nat) -> nat
    decreases text.len() - i,
{
    if i < 0 || i >= text.len() {
        depth
    } else if text[i] != '<' {
        nesting(text, i + 1, depth)
    } else {
        proof {
            lemma_markup_end(text, i);
        }
        let deeper = nesting(text, markup_end(text, i), depth_after(text, i, depth));
        let here = if opens(text, i) {
            depth + 1
        } else {
            depth
        };
        if here > deeper {
            here
        } else {
            deeper
        }
    }
}

/// How many elements of a listing may lie in one another. Without optimisation the parser
/// uses up the stack of an ordinary thread, two megabytes, before four hundred.
pub const MAX_NESTING: usize = 256;

proof fn lemma_nesting(text: Seq<char>, i: int, depth: nat)
    ensures
        nesting(text, i, depth) >= depth,
    decreases text.len() - i,
{
    if 0 <= i < text.len() && text[i] != '<' {
        lemma_nesting(text, i + 1, depth);
    }
}

fn find_past(chars: &Vec<char>, pat: &str, from: usize) -> (res: usize)
    requires
        0 < pat@.len(),
    ensures
        res == past(chars@, pat@, from as int),
{
    let wanted = chars_of(pat);
    let n = chars.len();
    let mut i: usize = from;
    while i < n
        invariant
            from <= i,
            n == chars@.len(),
            wanted@ == pat@,
            0 < pat@.len(),
            first_at(chars@, pat@, from as int) == first_at(chars@, pat@, i as int),
        decreases n - i,
    {
        if stands_at(chars, i, &wanted) {
            return i + wanted.len();
        }
        i = i + 1;
    }
    assert(!has_at(chars@, i as int, pat@));
    assert(first_at(chars@, pat@, i + 1) is None);
    n
}

fn find_tag_end(chars: &Vec<char>, from: usize) -> (res: usize)
    requires
        from <= chars@.len(),
    ensures
        res == tag_end(chars@, from as int, None),
{
    let n = chars.len();
    let mut quote: Option<char> = None;
    let mut i: usize = from;
    while i < n
        invariant
            from <= i <= n,
            n == chars@.len(),
            tag_end(chars@, from as int, None) == tag_end(chars@, i as int, quote),
        decreases n - i,
    {
        let c = chars[i];
        match quote {
            Some(q) => {
                if c == q {
                    quote = None;
                }
            },
            None => {
                if c == '>' {
                    return i;
                }
                if c == '"' || c == '\'' {
                    quote = Some(c);
                }
            },
        }
        i = i + 1;
    }
    n
}

/// Tells whether no more than `limit` elements lie in one another.
#[verifier::rlimit(40)]
pub fn nests_within(text: &str, limit: usize) -> (res: bool)
    ensures
        res == (nesting(text@, 0, 0) <= limit),
{
    let chars = chars_of(text);
    let n = chars.len();
    let comment = chars_of("<!--");
    let section = chars_of("<![CDATA[");
    let instruction = chars_of("<?");
    let closing = chars_of("</");
    proof {
        reveal_strlit("<!--");
        reveal_strlit("<![CDATA[");
        reveal_strlit("<?");
        reveal_strlit("</");
        reveal_strlit("-->");
        reveal_strlit("]]>");
        reveal_strlit("?>");
    }
    let mut depth: usize = 0;
    let mut i: usize = 0;
    while i < n
        invariant
            n == chars@.len(),
            chars@ == text@,
            comment@ == "<!--"@,
            section@ == "<![CDATA["@,
            instruction@ == "<?"@,
            closing@ == "</"@,
            "<!--"@.len() == 4,
            "<![CDATA["@.len() == 9,
            "<?"@.len() == 2,
            "</"@.len() == 2,
            "-->"@.len() == 3,
            "]]>"@.len() == 3,
            "?>"@.len() == 2,
            depth <= limit,
            depth <= i,
            (nesting(text@, 0, 0) <= limit) == (nesting(text@, i as int, depth as nat) <= limit),
        decreases n - i,
    {
        if chars[i] != '<' {
            i = i + 1;
        } else {
            let ghost at = i as int;
            let ghost before = depth as nat;
            proof {
                lemma_markup_end(text@, at);
                lemma_nesting(text@, markup_end(text@, at), depth_after(text@, at, before));
            }
            if stands_at(&chars, i, &comment) {
                i = find_past(&chars, "-->", i + 4);
            } else if stands_at(&chars, i, &section) {
                i = find_past(&chars, "]]>", i + 9);
            } else if stands_at(&chars, i, &instruction) {
                i = find_past(&chars, "?>", i + 2);
            } else if stands_at(&chars, i, &closing) {
                if depth > 0 {
                    depth = depth - 1;
                }
                i = i + 2;
            } else {
                if depth == limit {
                    return false;
                }
                let e = find_tag_end(&chars, i + 1);
                proof {
                    lemma_tag_end(text@, at + 1, None);
                }
                if !(e < n && chars[e - 1] == '/') {
                    depth = depth + 1;
                }
                i = if e < n {
                    e + 1
                } else {
                    n
                };
            }
            assert(i == markup_end(text@, at));
            assert(depth == depth_after(text@, at, before));
        }
    }
    true
}

/// The nodes of the document that `roxmltree::Document::parse` makes of a text, in
/// document order, or `None` if the text is not XML.
pub uninterp spec fn xml_nodes(text: Seq<char>) -> Option<Seq<NodeView>>;

/// `roxmltree::Document::parse`, and `Document::descendants` of the document. The parser
/// calls itself for each element inside another, so that the nesting is bounded.
#[verifier::external_body]
fn parse_xml(text: &str) -> (res: Result<Vec<XmlNode>, roxmltree::Error>)
    requires
        nesting(text@, 0, 0) <= MAX_NESTING,
    ensures
        xml_nodes(text@) == (match res {
            Ok(nodes) => Some(node_views(nodes@)),
            Err(_) => None,
        }),
{
    let document = roxmltree::Document::parse(text)?;
    Ok(
        document.descendants().map(
            |node| XmlNode {
                namespace: node.tag_name().namespace().map(|uri| uri.to_owned()),
                name: node.tag_name().name().to_owned(),
                text: node.text().map(|text| text.to_owned()),
                size: node.descendants().len(),
            },
        ).collect(),
    )
}

/// One `response` of a listing.
#[derive(Debug, PartialEq, Eq)]
pub struct Listed {
    /// The address of the file or folder; empty if the response has none.
    pub href: String,
    /// It is a folder.
    pub collection: bool,
    /// When it was changed, as the server writes it.
    pub modified: Option<String>,
}

/// What a [`Listed`] says.
pub struct ListedView {
    pub href: Seq<char>,
    pub collection: bool,
    pub modified: Option<Seq<char>>,
}

impl View for Listed {
    type V = ListedView;

    open spec fn view(&self) -> ListedView {
        ListedView {
            href: self.href@,
            collection: self.collection,
            modified: optional_view(self.modified),
        }
    }
}

/// What a list of responses says.
pub open spec fn listed_views(list: Seq<Listed>) -> Seq<ListedView> {
    list.map_values(|entry: Listed| entry@)
}

/// The node is an element of WebDAV's namespace with the given name.
pub open spec fn has_tag(node: NodeView, name: Seq<char>) -> bool {
    node.namespace == Some("DAV:"@) && node.name == name
}

/// Where the node at `i` and everything below it end.
pub open spec fn subtree_end(nodes: Seq<NodeView>, i: int) -> int {
    if i + nodes[i].size <= nodes.len() {
        i + nodes[i].size
    } else {
        nodes.len() as int
    }
}

/// The first node from `from` on, and before `to`, with the given tag.
pub open spec fn tag_at(nodes: Seq<NodeView>, name: Seq<char>, from: int, to: int) -> Option<int>
    decreases to - from,
{
    if from >= to {
        None
    } else if has_tag(nodes[from], name) {
        Some(from)
    } else {
        tag_at(nodes, name, from + 1, to)
    }
}

/// The text of the first node with the given tag in the subtree of the node at `i`.
pub open spec fn tag_text(nodes: Seq<NodeView>, name: Seq<char>, i: int) -> Option<Seq<char>> {
    match tag_at(nodes, name, i, subtree_end(nodes, i)) {
        Some(j) => nodes[j].text,
        None => None,
    }
}

/// What the `response` at `i` says.
pub open spec fn response_at(nodes: Seq<NodeView>, i: int) -> ListedView {
    ListedView {
        href: match tag_text(nodes, "href"@, i) {
            Some(text) => text,
            None => Seq::empty(),
        },
        collection: tag_at(nodes, "collection"@, i, subtree_end(nodes, i)) is Some,
        modified: tag_text(nodes, "getlastmodified"@, i),
    }
}

/// What the responses among the first `n` nodes say, in order.
pub open spec fn responses(nodes: Seq<NodeView>, n: int) -> Seq<ListedView>
    decreases n,
{
    if n <= 0 {
        Seq::empty()
    } else if has_tag(nodes[n - 1], "response"@) {
        responses(nodes, n - 1).push(response_at(nodes, n - 1))
    } else {
        responses(nodes, n - 1)
    }
}

fn node_has_tag(node: &XmlNode, name: &str) -> (res: bool)
    ensures
        res == has_tag(node@, name@),
{
    match &node.namespace {
        Some(uri) => same_text(uri.as_str(), "DAV:") && same_text(node.name.as_str(), name),
        None => false,
    }
}

fn find_tag(nodes: &Vec<XmlNode>, name: &str, from: usize, to: usize) -> (res: Option<usize>)
    requires
        from <= to <= nodes@.len(),
    ensures
        match res {
            Some(j) => from <= j < to && tag_at(
                node_views(nodes@),
                name@,
                from as int,
                to as int,
            ) == Some(j as int),
            None => tag_at(node_views(nodes@), name@, from as int, to as int) is None,
        },
{
    let ghost all = node_views(nodes@);
    let mut i: usize = from;
    while i < to
        invariant
            from <= i <= to <= nodes@.len(),
            all == node_views(nodes@),
            tag_at(all, name@, from as int, to as int) == tag_at(all, name@, i as int, to as int),
        decreases to - i,
    {
        assert(all[i as int] == nodes@[i as int]@);
        if node_has_tag(&nodes[i], name) {
            return Some(i);
        }
        i = i + 1;
    }
    None
}

fn find_text(nodes: &Vec<XmlNode>, name: &str, from: usize, to: usize) -> (res: Option<String>)
    requires
        from < nodes@.len(),
        from <= to <= nodes@.len(),
        to == subtree_end(node_views(nodes@), from as int),
    ensures
        optional_view(res) == tag_text(node_views(nodes@), name@, from as int),
{
    match find_tag(nodes, name, from, to) {
        Some(j) => {
            assert(node_views(nodes@)[j as int] == nodes@[j as int]@);
            match &nodes[j].text {
                Some(text) => Some(text.clone()),
                None => None,
            }
        },
        None => None,
    }
}

/// Reads the responses of a listing.
pub fn read_listing(nodes: &Vec<XmlNode>) -> (res: Vec<Listed>)
    ensures
        listed_views(res@) == responses(node_views(nodes@), nodes@.len() as int),
{
    let ghost all = node_views(nodes@);
    let n = nodes.len();
    let mut list: Vec<Listed> = Vec::new();
    let mut i: usize = 0;
    while i < n
        invariant
            i <= n,
            n == nodes@.len(),
            all == node_views(nodes@),
            listed_views(list@) == responses(all, i as int),
        decreases n - i,
    {
        assert(all[i as int] == nodes@[i as int]@);
        if node_has_tag(&nodes[i], "response") {
            let to: usize = if nodes[i].size <= n - i {
                i + nodes[i].size
            } else {
                n
            };
            let href = match find_text(nodes, "href", i, to) {
                Some(text) => text,
                None => String::new(),
            };
            let collection = find_tag(nodes, "collection", i, to).is_some();
            let modified = find_text(nodes, "getlastmodified", i, to);
            let entry = Listed { href, collection, modified };
            let ghost before = list@;
            let ghost shown = entry@;
            list.push(entry);
            assert(shown == response_at(all, i as int));
            assert(listed_views(list@) =~= listed_views(before).push(shown));
        }
        i = i + 1;
    }
    list
}

/// What a listing's text says, or that it is not XML. Elements that lie in one another
/// too deep are not read.
pub open spec fn listing(text: Seq<char>) -> Result<Seq<ListedView>, Fault> {
    if nesting(text, 0, 0) > MAX_NESTING {
        Err(Fault::WebdavXml)
    } else {
        match xml_nodes(text) {
            Some(nodes) => Ok(responses(nodes, nodes.len() as int)),
            None => Err(Fault::WebdavXml),
        }
    }
}

/// Reads the text of a listing.
pub fn parse_listing(text: &str) -> (res: Result<Vec<Listed>, SyncError>)
    ensures
        match res {
            Ok(list) => listing(text@) == Ok::<Seq<ListedView>, Fault>(listed_views(list@)),
            Err(e) => listing(text@) == Err::<Seq<ListedView>, Fault>(e@),
        },
{
    if !nests_within(text, MAX_NESTING) {
        return Err(SyncError::WebdavXml);
    }
    match parse_xml(text) {
        Ok(nodes) => Ok(read_listing(&nodes)),
        Err(_) => Err(SyncError::WebdavXml),
    }
}

/// The node is an element of WebDAV with the given name.
pub open spec fn dav_element(node: NodeView, name: Seq<char>) -> bool {
    node.namespace == Some("DAV:"@) && node.name == name
}

/// The first element of WebDAV with the given name among the node at `i` and those below
/// it, which follow it and of which there are as many as its size says; its place, if
/// there is one.
pub open spec fn first_below(nodes: Seq<NodeView>, i: int, name: Seq<char>, j: int) -> bool {
    &&& i <= j < i + nodes[i].size
    &&& j < nodes.len()
    &&& dav_element(nodes[j], name)
    &&& forall|k: int| i <= k < j ==> !dav_element(#[trigger] nodes[k], name)
}

/// A listing has one entry for each response, in their order: its address is the text of
/// the first `href` in it, it is a folder if there is a `collection` in it, and its time is
/// the text of the first `getlastmodified`. The places that are returned are those of the
/// responses.
#[verifier::rlimit(40)]
pub proof fn law_every_response_is_listed(nodes: Seq<NodeView>, n: int) -> (res: Seq<int>)
    requires
        0 <= n <= nodes.len(),
    ensures
        res.len() == responses(nodes, n).len(),
        forall|i: int|
            0 <= i < n ==> (dav_element(#[trigger] nodes[i], "response"@) <==> res.contains(i)),
        forall|k: int, j: int| 0 <= k < j < res.len() ==> #[trigger] res[k] < #[trigger] res[j],
        forall|k: int|
            0 <= k < res.len() ==> 0 <= #[trigger] res[k] < n && reads_response(
                nodes,
                res[k],
                responses(nodes, n)[k],
            ),
    decreases n,
{
    if n == 0 {
        Seq::empty()
    } else {
        let before = law_every_response_is_listed(nodes, n - 1);
        let last = has_tag(nodes[n - 1], "response"@);
        let res = if last {
            before.push(n - 1)
        } else {
            before
        };
        if last {
            lemma_response(nodes, n - 1);
        }
        assert forall|i: int| 0 <= i < n implies (dav_element(#[trigger] nodes[i], "response"@)
            <==> res.contains(i)) by {
            if before.contains(i) {
                let k = choose|k: int| 0 <= k < before.len() && before[k] == i;
                assert(res[k] == i);
            }
            if last && i == n - 1 {
                assert(res[res.len() - 1] == i);
            }
            if res.contains(i) {
                let k = choose|k: int| 0 <= k < res.len() && res[k] == i;
                if k < before.len() {
                    assert(before[k] == i);
                }
            }
        }
        res
    }
}

/// The entry says what stands in the response at `i`.
pub open spec fn reads_response(nodes: Seq<NodeView>, i: int, entry: ListedView) -> bool {
    &&& forall|j: int| #[trigger]
        first_below(nodes, i, "href"@, j) ==> entry.href == (match nodes[j].text {
            Some(text) => text,
            None => Seq::empty(),
        })
    &&& (forall|j: int| !#[trigger] first_below(nodes, i, "href"@, j)) ==> entry.href.len() == 0
    &&& entry.collection <==> exists|j: int| #[trigger] first_below(nodes, i, "collection"@, j)
    &&& forall|j: int| #[trigger]
        first_below(nodes, i, "getlastmodified"@, j) ==> entry.modified == nodes[j].text
    &&& (forall|j: int| !#[trigger] first_below(nodes, i, "getlastmodified"@, j))
        ==> entry.modified is None
}

proof fn lemma_response(nodes: Seq<NodeView>, i: int)
    requires
        0 <= i < nodes.len(),
    ensures
        reads_response(nodes, i, response_at(nodes, i)),
{
    lemma_tag_below(nodes, i, "href"@);
    lemma_tag_below(nodes, i, "collection"@);
    lemma_tag_below(nodes, i, "getlastmodified"@);
}

/// What is found by its tag is the first element with its name.
proof fn lemma_tag_below(nodes: Seq<NodeView>, i: int, name: Seq<char>)
    requires
        0 <= i < nodes.len(),
    ensures
        match tag_at(nodes, name, i, subtree_end(nodes, i)) {
            Some(j) => first_below(nodes, i, name, j) && forall|k: int| #[trigger]
                first_below(nodes, i, name, k) ==> k == j,
            None => forall|k: int| !#[trigger] first_below(nodes, i, name, k),
        },
{
    lemma_tag_from(nodes, name, i, subtree_end(nodes, i));
    if let Some(j) = tag_at(nodes, name, i, subtree_end(nodes, i)) {
        assert(first_below(nodes, i, name, j));
    }
}

proof fn lemma_tag_from(nodes: Seq<NodeView>, name: Seq<char>, from: int, to: int)
    requires
        0 <= from,
        to <= nodes.len(),
    ensures
        match tag_at(nodes, name, from, to) {
            Some(j) => from <= j < to && dav_element(nodes[j], name) && forall|k: int|
                from <= k < j ==> !dav_element(#[trigger] nodes[k], name),
            None => forall|k: int| from <= k < to ==> !dav_element(#[trigger] nodes[k], name),
        },
    decreases to - from,
{
    if from < to && !has_tag(nodes[from], name) {
        lemma_tag_from(nodes, name, from + 1, to);
    }
}

/// A listing that is not nested too deep is read from the nodes of its XML; a text that is
/// not XML is no listing.
pub proof fn law_listing_is_read_from_the_xml(text: Seq<char>)
    ensures
        nesting(text, 0, 0) <= 256 ==> match xml_nodes(text) {
            Some(nodes) => listing(text) == Ok::<Seq<ListedView>, Fault>(
                responses(nodes, nodes.len() as int),
            ),
            None => listing(text) == Err::<Seq<ListedView>, Fault>(Fault::WebdavXml),
        },
        nesting(text, 0, 0) > 256 ==> listing(text) == Err::<Seq<ListedView>, Fault>(
            Fault::WebdavXml,
        ),
{
}

/// Elements do not lie deeper in one another than there are places where markup starts; a
/// text without markup has none.
pub proof fn law_nesting_is_bounded_by_the_markup(text: Seq<char>, i: int, depth: nat)
    requires
        0 <= i <= text.len(),
    ensures
        depth <= nesting(text, i, depth) <= depth + starts(text, i),
    decreases text.len() - i,
{
    if i < text.len() {
        if text[i] != '<' {
            law_nesting_is_bounded_by_the_markup(text, i + 1, depth);
        } else {
            lemma_markup_end(text, i);
            let e = markup_end(text, i);
            let d = depth_after(text, i, depth);
            lemma_nesting(text, e, d);
            law_nesting_is_bounded_by_the_markup(text, e, d);
            lemma_starts(text, i + 1, e);
        }
    }
}

/// How many less-than signs there are from `i` on.
pub open spec fn starts(text: Seq<char>, i: int) -> nat
    decreases text.len() - i,
{
    if i < 0 || i >= text.len() {
        0
    } else if text[i] == '<' {
        1 + starts(text, i + 1)
    } else {
        starts(text, i + 1)
    }
}

proof fn lemma_starts(text: Seq<char>, i: int, j: int)
    requires
        0 <= i <= j <= text.len(),
    ensures
        starts(text, j) <= starts(text, i),
    decreases j - i,
{
    if i < j {
        lemma_starts(text, i + 1, j);
    }
}

proof fn lemma_tag_end_at(text: Seq<char>, i: int, e: int)
    requires
        0 <= i <= e < text.len(),
        text[e] == '>',
        forall|k: int|
            i <= k < e ==> #[trigger] text[k] != '>' && text[k] != '"' && text[k] != '\'',
    ensures
        tag_end(text, i, None) == e,
    decreases e - i,
{
    if i < e {
        assert(text[i] != '>');
        lemma_tag_end_at(text, i + 1, e);
    }
}

proof fn lemma_marks(text: Seq<char>, i: int)
    requires
        0 <= i,
        i + 1 < text.len(),
    ensures
        has_at(text, i, "<!--"@) ==> text[i + 1] == '!',
        has_at(text, i, "<![CDATA["@) ==> text[i + 1] == '!',
        has_at(text, i, "<?"@) ==> text[i + 1] == '?',
        has_at(text, i, "</"@) <==> text[i] == '<' && text[i + 1] == '/',
{
    reveal_strlit("<!--");
    reveal_strlit("<![CDATA[");
    reveal_strlit("<?");
    reveal_strlit("</");
    if has_at(text, i, "<!--"@) {
        assert(text.subrange(i, i + 4)[1] == text[i + 1]);
    }
    if has_at(text, i, "<![CDATA["@) {
        assert(text.subrange(i, i + 9)[1] == text[i + 1]);
    }
    if has_at(text, i, "<?"@) {
        assert(text.subrange(i, i + 2)[1] == text[i + 1]);
    }
    if has_at(text, i, "</"@) {
        assert(text.subrange(i, i + 2)[0] == text[i]);
        assert(text.subrange(i, i + 2)[1] == text[i + 1]);
    }
    if text[i] == '<' && text[i + 1] == '/' {
        assert(text.subrange(i, i + 2) =~= "</"@);
    }
}

/// A tag between `<` and `>` opens an element, in which what follows lies, unless a slash
/// ends it; then what follows lies beside the element.
pub proof fn law_tags_open_elements(text: Seq<char>, i: int, e: int, depth: nat)
    requires
        0 <= i,
        i + 1 < e < text.len(),
        text[i] == '<',
        text[i + 1] != '!' && text[i + 1] != '?' && text[i + 1] != '/',
        text[e] == '>',
        forall|k: int|
            i < k < e ==> #[trigger] text[k] != '>' && text[k] != '"' && text[k] != '\'',
    ensures
        text[e - 1] != '/' ==> nesting(text, i, depth) == nesting(text, e + 1, depth + 1),
        text[e - 1] == '/' ==> nesting(text, i, depth) == (if nesting(text, e + 1, depth) > depth {
            nesting(text, e + 1, depth)
        } else {
            depth + 1
        }),
{
    lemma_marks(text, i);
    lemma_tag_end_at(text, i + 1, e);
    lemma_nesting(text, e + 1, depth + 1);
    lemma_nesting(text, e + 1, depth);
}

/// A closing tag ends the innermost element, and other characters change nothing.
pub proof fn law_closing_tags_end_elements(text: Seq<char>, i: int, depth: nat)
    requires
        0 <= i,
        i + 1 < text.len(),
    ensures
        text[i] == '<' && text[i + 1] == '/' && depth > 0 ==> nesting(text, i, depth) == (
        if nesting(text, i + 2, (depth - 1) as nat) > depth {
            nesting(text, i + 2, (depth - 1) as nat)
        } else {
            depth
        }),
        text[i] != '<' ==> nesting(text, i, depth) == nesting(text, i + 1, depth),
{
    lemma_marks(text, i);
}

/// Within a tag nothing counts between quotes, not even a `>`.
pub proof fn law_quotes_hide_the_end_of_a_tag(text: Seq<char>, a: int, b: int)
    requires
        0 <= a < b < text.len(),
        text[a] == '"' || text[a] == '\'',
        text[b] == text[a],
        forall|k: int| a < k < b ==> #[trigger] text[k] != text[a],
    ensures
        tag_end(text, a, None) == tag_end(text, b + 1, None),
{
    lemma_quote_skipped(text, a + 1, b, text[a]);
}

proof fn lemma_quote_skipped(text: Seq<char>, i: int, b: int, quote: char)
    requires
        0 <= i <= b < text.len(),
        text[b] == quote,
        forall|k: int| i <= k < b ==> #[trigger] text[k] != quote,
    ensures
        tag_end(text, i, Some(quote)) == tag_end(text, b + 1, None),
    decreases b - i,
{
    if i < b {
        assert(text[i] != quote);
        lemma_quote_skipped(text, i + 1, b, quote);
    }
}

/// Nothing in a comment counts: what follows its end lies where the comment lies.
pub proof fn law_comments_open_nothing(text: Seq<char>, i: int, j: int, depth: nat)
    requires
        0 <= i,
        has_at(text, i, "<!--"@),
        i + 4 <= j,
        has_at(text, j, "-->"@),
        forall|k: int| i + 4 <= k < j ==> !#[trigger] has_at(text, k, "-->"@),
    ensures
        nesting(text, i, depth) == nesting(text, j + 3, depth),
{
    reveal_strlit("<!--");
    reveal_strlit("-->");
    assert(text.subrange(i, i + 4)[0] == text[i]);
    lemma_first_there(text, "-->"@, i + 4, j);
    lemma_nesting(text, j + 3, depth);
}

proof fn lemma_first_there(text: Seq<char>, pat: Seq<char>, i: int, j: int)
    requires
        0 <= i <= j,
        has_at(text, j, pat),
        forall|k: int| i <= k < j ==> !#[trigger] has_at(text, k, pat),
    ensures
        first_at(text, pat, i) == Some(j),
    decreases j - i,
{
    if i < j {
        assert(!has_at(text, i, pat));
        lemma_first_there(text, pat, i + 1, j);
    }
}

} // verus!
