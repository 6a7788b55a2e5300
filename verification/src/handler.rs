//! The WebDAV handler: what each request is answered, and what has to be done
//! for it.

use vstd::prelude::*;
use vstd::string::*;
use vstd::utf8::encode_utf8;

use crate::bytes::{
    copy_bytes, decimal, find_byte, position, push_bytes, push_decimal, push_text, same_bytes, text,
};
use crate::git::packfile::plain_kinds;
use crate::git::repo::{
    GitRepo, PendingModel, PendingPush, PlanModel, RepoError, RepoModel, marker_path, pack_holds,
    removal_holds, settled, sound_at, transfer_holds, transfer_sound_at, write_holds,
};
use crate::git::lists::TargetModel;
use crate::git::objects::is_utf8;
use crate::outside::{clock, hex_encode, hex_of, lossy, lossy_text, sha1_digest, sha1_of};
use crate::path::{RepoPath, components_of, extension_of, file_name_of, joined, last_dot, parent_of};

verus! {

// ---------------------------------------------------------------------------
// Responses
// ---------------------------------------------------------------------------

/// An answer to a request.
pub struct Response {
    pub status: u16,
    pub headers: Vec<(&'static str, Vec<u8>)>,
    pub body: Vec<u8>,
}

/// An answer to a request.
#[verifier::ext_equal]
pub struct ResponseModel {
    pub status: u16,
    pub headers: Seq<(Seq<u8>, Seq<u8>)>,
    pub body: Seq<u8>,
}

/// What a list of headers is.
pub open spec fn header_models(headers: Seq<(&'static str, Vec<u8>)>) -> Seq<(Seq<u8>, Seq<u8>)> {
    headers.map_values(|h: (&'static str, Vec<u8>)| (text(h.0), h.1@))
}

impl View for Response {
    type V = ResponseModel;

    open spec fn view(&self) -> ResponseModel {
        ResponseModel {
            status: self.status,
            headers: header_models(self.headers@),
            body: self.body@,
        }
    }
}

/// An answer that is a status and no more.
pub open spec fn bare(status: u16) -> ResponseModel {
    ResponseModel { status, headers: Seq::empty(), body: Seq::empty() }
}

impl Response {
    /// An answer that is a status and no more.
    pub fn bare(status: u16) -> (r: Response)
        ensures
            r@ == bare(status),
    {
        let r = Response { status, headers: Vec::new(), body: Vec::new() };
        assert(r@ =~= bare(status));
        r
    }

    fn with_header(self, name: &'static str, value: Vec<u8>) -> (r: Response)
        ensures
            r@ == (ResponseModel { headers: self@.headers.push((text(name), value@)), ..self@ }),
    {
        let mut headers = self.headers;
        headers.push((name, value));
        let r = Response { status: self.status, headers, body: self.body };
        assert(r@.headers =~= self@.headers.push((text(name), value@)));
        r
    }
}

fn bytes_of(s: &str) -> (r: Vec<u8>)
    ensures
        r@ == text(s),
{
    copy_bytes(s.as_bytes())
}

// ---------------------------------------------------------------------------
// Utility functions
// ---------------------------------------------------------------------------

/// Whether the path names a marker file, which is not shown.
pub open spec fn dav_path(parts: Seq<Seq<u8>>) -> bool {
    file_name_of(parts) == Some(text(".DAV"))
}

/// Whether the path names a marker file.
pub fn is_dav_path(path: &RepoPath) -> (r: bool)
    ensures
        r == dav_path(components_of(path@)),
{
    match path.components().file_name() {
        Some(name) => same_bytes(name.as_slice(), ".DAV".as_bytes()),
        None => false,
    }
}

/// The path in a URL without the slash that it begins with.
pub open spec fn relative(s: Seq<u8>) -> Seq<u8> {
    if s.len() > 0 && s[0] == 47 {
        s.drop_first()
    } else {
        s
    }
}

fn relative_path(s: &[u8]) -> (r: RepoPath)
    ensures
        r@ == relative(s@),
{
    if s.len() > 0 && s[0] == 47 {
        assert(s@.subrange(1, s@.len() as int) =~= s@.drop_first());
        RepoPath::from_bytes(&s[1..s.len()])
    } else {
        RepoPath::from_bytes(s)
    }
}

/// The path in the repository that the path in a URL stands for.
pub fn davpath_to_rel(s: &str) -> (r: RepoPath)
    ensures
        r@ == relative(text(s)),
{
    relative_path(s.as_bytes())
}

/// The path in a URL that stands for a path in the repository, as it can be
/// told in text.
pub open spec fn href_of(path: Seq<u8>) -> Seq<u8> {
    seq![47u8] + lossy(path)
}

/// The path in a URL that stands for a path in the repository.
pub fn href_encode(path: &RepoPath) -> (r: Vec<u8>)
    ensures
        r@ == href_of(path@),
{
    let mut r: Vec<u8> = Vec::new();
    r.push(47);
    push_bytes(&mut r, lossy_text(path.raw.as_slice()).as_slice());
    assert(r@ =~= href_of(path@));
    r
}

/// What stands for a byte in the text of an XML element.
pub open spec fn xml_byte(b: u8) -> Seq<u8> {
    if b == 38 {
        text("&amp;")
    } else if b == 60 {
        text("&lt;")
    } else if b == 62 {
        text("&gt;")
    } else {
        seq![b]
    }
}

/// The text of an XML element that shows `s`: `&`, `<` and `>` are escaped.
pub open spec fn xml_escaped(s: Seq<u8>) -> Seq<u8>
    decreases s.len(),
{
    if s.len() == 0 {
        Seq::empty()
    } else {
        xml_escaped(s.drop_last()) + xml_byte(s.last())
    }
}

fn push_escaped(out: &mut Vec<u8>, s: &[u8])
    ensures
        final(out)@ == old(out)@ + xml_escaped(s@),
{
    let ghost start = out@;
    let mut i: usize = 0;
    assert(s@.take(0) =~= Seq::empty());
    assert(out@ =~= start + xml_escaped(s@.take(0)));
    while i < s.len()
        invariant
            i <= s@.len(),
            out@ == start + xml_escaped(s@.take(i as int)),
        decreases s@.len() - i,
    {
        let ghost before = out@;
        assert(s@.take(i + 1).drop_last() =~= s@.take(i as int));
        assert(s@.take(i + 1).last() == s@[i as int]);
        let b: u8 = s[i];
        if b == 38 {
            push_text(out, "&amp;");
        } else if b == 60 {
            push_text(out, "&lt;");
        } else if b == 62 {
            push_text(out, "&gt;");
        } else {
            out.push(b);
        }
        assert(out@ =~= before + xml_byte(b));
        i += 1;
        assert(out@ =~= start + xml_escaped(s@.take(i as int)));
    }
    assert(s@.take(i as int) =~= s@);
}

/// The media type of a file, by the extension of its name.
pub open spec fn media_type(extension: Option<Seq<u8>>) -> Seq<u8> {
    match extension {
        None => text("application/octet-stream"),
        Some(e) => if e == text("html") || e == text("htm") {
            text("text/html")
        } else if e == text("css") {
            text("text/css")
        } else if e == text("js") {
            text("application/javascript")
        } else if e == text("json") {
            text("application/json")
        } else if e == text("png") {
            text("image/png")
        } else if e == text("jpg") || e == text("jpeg") {
            text("image/jpeg")
        } else if e == text("gif") {
            text("image/gif")
        } else if e == text("svg") {
            text("image/svg+xml")
        } else if e == text("txt") {
            text("text/plain")
        } else if e == text("md") {
            text("text/markdown")
        } else if e == text("xml") {
            text("application/xml")
        } else if e == text("pdf") {
            text("application/pdf")
        } else if e == text("zip") {
            text("application/zip")
        } else if e == text("tar") {
            text("application/x-tar")
        } else if e == text("gz") {
            text("application/gzip")
        } else {
            text("application/octet-stream")
        },
    }
}

fn find_last_dot(name: &[u8]) -> (r: Option<usize>)
    ensures
        match r {
            Some(i) => last_dot(name@) == Some(i as int) && i < name@.len(),
            None => last_dot(name@) is None,
        },
{
    let mut n: usize = name.len();
    assert(name@.take(n as int) =~= name@);
    while n > 1
        invariant
            n <= name@.len(),
            last_dot(name@) == last_dot(name@.take(n as int)),
        decreases n,
    {
        assert(name@.take(n as int).last() == name@[n - 1]);
        if name[n - 1] == 46 {
            return Some(n - 1);
        }
        assert(name@.take(n as int).drop_last() =~= name@.take(n - 1));
        n -= 1;
    }
    None
}

fn equals(a: &[u8], b: &str) -> (r: bool)
    ensures
        r == (a@ == text(b)),
{
    same_bytes(a, b.as_bytes())
}

/// The media type of a file, by the extension of its name.
pub fn content_type(path: &RepoPath) -> (r: &'static str)
    ensures
        text(r) == media_type(extension_of(components_of(path@))),
{
    let parts = path.components();
    let name = match parts.file_name() {
        Some(name) => name,
        None => {
            return "application/octet-stream";
        },
    };
    let name = name.as_slice();
    let e = match find_last_dot(name) {
        Some(i) => {
            let n: usize = name.len();
            assert(name@.subrange(i + 1, n as int) =~= name@.skip(i + 1));
            &name[i + 1..n]
        },
        None => {
            return "application/octet-stream";
        },
    };
    if equals(e, "html") || equals(e, "htm") {
        "text/html"
    } else if equals(e, "css") {
        "text/css"
    } else if equals(e, "js") {
        "application/javascript"
    } else if equals(e, "json") {
        "application/json"
    } else if equals(e, "png") {
        "image/png"
    } else if equals(e, "jpg") || equals(e, "jpeg") {
        "image/jpeg"
    } else if equals(e, "gif") {
        "image/gif"
    } else if equals(e, "svg") {
        "image/svg+xml"
    } else if equals(e, "txt") {
        "text/plain"
    } else if equals(e, "md") {
        "text/markdown"
    } else if equals(e, "xml") {
        "application/xml"
    } else if equals(e, "pdf") {
        "application/pdf"
    } else if equals(e, "zip") {
        "application/zip"
    } else if equals(e, "tar") {
        "application/x-tar"
    } else if equals(e, "gz") {
        "application/gzip"
    } else {
        "application/octet-stream"
    }
}

/// The tag of a content: its digest, in double quotes.
pub open spec fn etag_of(data: Seq<u8>) -> Seq<u8> {
    seq![34u8] + hex_of(sha1_of(data)@) + seq![34u8]
}

/// The tag of a content.
pub fn compute_etag(data: &[u8]) -> (r: Vec<u8>)
    ensures
        r@ == etag_of(data@),
{
    let mut r: Vec<u8> = Vec::new();
    r.push(34);
    push_bytes(&mut r, hex_encode(sha1_digest(data).as_slice()).as_slice());
    r.push(34);
    assert(r@ =~= etag_of(data@));
    r
}

/// How deep a listing goes: one level unless it is told not to.
pub open spec fn depth_of(header: Option<Seq<u8>>) -> Option<u32> {
    match header {
        Some(h) => if h == text("0") {
            Some(0)
        } else if h == text("1") || h == text("infinity") {
            Some(1)
        } else {
            None
        },
        None => None,
    }
}

/// What a header says of the depth.
pub fn parse_depth(header: Option<&str>) -> (r: Option<u32>)
    ensures
        r == depth_of(header_bytes(header)),
{
    match header {
        Some(h) => {
            let b = h.as_bytes();
            if equals(b, "0") {
                Some(0)
            } else if equals(b, "1") || equals(b, "infinity") {
                Some(1)
            } else {
                None
            }
        },
        None => None,
    }
}

/// The bytes of a header that may be absent.
pub open spec fn header_bytes(header: Option<&str>) -> Option<Seq<u8>> {
    match header {
        Some(h) => Some(text(h)),
        None => None,
    }
}

/// Where two slashes stand first, next to each other.
pub open spec fn slashes_at(s: Seq<u8>) -> Option<int>
    decreases s.len(),
{
    if s.len() < 2 {
        None
    } else if s[0] == 47 && s[1] == 47 {
        Some(0)
    } else {
        match slashes_at(s.drop_first()) {
            Some(i) => Some(i + 1),
            None => None,
        }
    }
}

/// The path that a destination names: a path, or a URL, of which the part from
/// the first slash behind the host is taken.
pub open spec fn destination_path(header: Option<Seq<u8>>) -> Option<Seq<u8>> {
    match header {
        None => None,
        Some(h) => if h.len() > 0 && h[0] == 47 {
            Some(relative(h))
        } else {
            match slashes_at(h) {
                None => None,
                Some(i) => {
                    let after = h.skip(i + 2);
                    match position(after, 47) {
                        None => None,
                        Some(k) => Some(relative(after.skip(k))),
                    }
                },
            }
        },
    }
}

fn find_slashes(s: &[u8]) -> (r: Option<usize>)
    ensures
        match r {
            Some(i) => slashes_at(s@) == Some(i as int) && i + 2 <= s@.len(),
            None => slashes_at(s@) is None,
        },
{
    let mut i: usize = 0;
    assert(s@.skip(0) =~= s@);
    while s.len() >= 2 && i <= s.len() - 2
        invariant
            i <= s@.len(),
            slashes_at(s@) == match slashes_at(s@.skip(i as int)) {
                Some(k) => Some(k + i),
                None => None,
            },
        decreases s@.len() - i,
    {
        assert(s@.skip(i as int)[0] == s@[i as int]);
        assert(s@.skip(i as int)[1] == s@[i + 1]);
        if s[i] == 47 && s[i + 1] == 47 {
            return Some(i);
        }
        assert(s@.skip(i as int).drop_first() =~= s@.skip(i + 1));
        i += 1;
    }
    None
}

/// The path that a `Destination` header names.
pub fn parse_destination(header: Option<&str>) -> (r: Option<RepoPath>)
    ensures
        match r {
            Some(p) => destination_path(header_bytes(header)) == Some(p@),
            None => destination_path(header_bytes(header)) is None,
        },
{
    let h = match header {
        Some(h) => h.as_bytes(),
        None => {
            return None;
        },
    };
    if h.len() > 0 && h[0] == 47 {
        return Some(relative_path(h));
    }
    match find_slashes(h) {
        None => None,
        Some(i) => {
            let after = &h[i + 2..h.len()];
            assert(after@ =~= h@.skip(i + 2));
            match find_byte(after, 47) {
                None => None,
                Some(k) => {
                    assert(after@.subrange(k as int, after@.len() as int) =~= after@.skip(
                        k as int,
                    ));
                    Some(relative_path(&after[k..after.len()]))
                },
            }
        },
    }
}

/// Whether what is at the destination may be overwritten: unless `F` is said.
pub open spec fn may_overwrite(header: Option<Seq<u8>>) -> bool {
    header != Some(text("F"))
}

/// Whether what is at the destination may be overwritten.
pub fn parse_overwrite(header: Option<&str>) -> (r: bool)
    ensures
        r == may_overwrite(header_bytes(header)),
{
    match header {
        Some(h) => !equals(h.as_bytes(), "F"),
        None => true,
    }
}

// ---------------------------------------------------------------------------
// XML helpers
// ---------------------------------------------------------------------------

/// Something that a listing tells of.
pub struct PropfindResource {
    pub path: RepoPath,
    pub is_dir: bool,
    pub len: u64,
}

/// Something that a listing tells of.
pub struct ResourceModel {
    pub path: Seq<u8>,
    pub is_dir: bool,
    pub len: u64,
}

impl View for PropfindResource {
    type V = ResourceModel;

    open spec fn view(&self) -> ResourceModel {
        ResourceModel { path: self.path@, is_dir: self.is_dir, len: self.len }
    }
}

/// What a list of resources is.
pub open spec fn resource_models(rs: Seq<PropfindResource>) -> Seq<ResourceModel> {
    rs.map_values(|r: PropfindResource| r@)
}

/// The properties of a resource.
pub open spec fn properties_xml(r: ResourceModel) -> Seq<u8> {
    if r.is_dir {
        text("<D:getcontenttype>httpd/unix-directory</D:getcontenttype>") + text(
            "<D:resourcetype><D:collection/></D:resourcetype>",
        )
    } else {
        text("<D:getcontentlength>") + decimal(r.len as nat) + text("</D:getcontentlength>") + text(
            "<D:getcontenttype>",
        ) + media_type(extension_of(components_of(r.path))) + text("</D:getcontenttype>") + text(
            "<D:resourcetype/>",
        )
    }
}

/// The part of a listing about one resource.
pub open spec fn resource_xml(r: ResourceModel) -> Seq<u8> {
    text("<D:response>") + text("<D:href>") + xml_escaped(href_of(r.path)) + text("</D:href>") + text(
        "<D:propstat><D:prop>",
    ) + properties_xml(r) + text("<D:lockdiscovery/>") + text("<D:supportedlock/>") + text(
        "</D:prop><D:status>HTTP/1.1 200 OK</D:status></D:propstat>",
    ) + text("</D:response>")
}

/// The parts of a listing, one after the other.
pub open spec fn resources_xml(rs: Seq<ResourceModel>) -> Seq<u8>
    decreases rs.len(),
{
    if rs.len() == 0 {
        Seq::empty()
    } else {
        resources_xml(rs.drop_last()) + resource_xml(rs.last())
    }
}

/// What a listing begins with.
pub open spec fn multistatus_head() -> Seq<u8> {
    text("<?xml version=\"1.0\" encoding=\"utf-8\"?>") + text("<D:multistatus xmlns:D=\"DAV:\">")
}

/// A listing of resources.
pub open spec fn multistatus_xml(rs: Seq<ResourceModel>) -> Seq<u8> {
    multistatus_head() + resources_xml(rs) + text("</D:multistatus>")
}

fn properties_of(r: &PropfindResource) -> (out: Vec<u8>)
    ensures
        out@ == properties_xml(r@),
{
    if r.is_dir {
        let mut out = bytes_of("<D:getcontenttype>httpd/unix-directory</D:getcontenttype>");
        push_text(&mut out, "<D:resourcetype><D:collection/></D:resourcetype>");
        out
    } else {
        let mut out = bytes_of("<D:getcontentlength>");
        push_decimal(&mut out, r.len);
        push_text(&mut out, "</D:getcontentlength>");
        push_text(&mut out, "<D:getcontenttype>");
        push_text(&mut out, content_type(&r.path));
        push_text(&mut out, "</D:getcontenttype>");
        push_text(&mut out, "<D:resourcetype/>");
        out
    }
}

fn resource_of(r: &PropfindResource) -> (out: Vec<u8>)
    ensures
        out@ == resource_xml(r@),
{
    let mut out = bytes_of("<D:response>");
    push_text(&mut out, "<D:href>");
    push_escaped(&mut out, href_encode(&r.path).as_slice());
    push_text(&mut out, "</D:href>");
    push_text(&mut out, "<D:propstat><D:prop>");
    push_bytes(&mut out, properties_of(r).as_slice());
    push_text(&mut out, "<D:lockdiscovery/>");
    push_text(&mut out, "<D:supportedlock/>");
    push_text(&mut out, "</D:prop><D:status>HTTP/1.1 200 OK</D:status></D:propstat>");
    push_text(&mut out, "</D:response>");
    out
}

/// A listing of resources.
pub fn build_multistatus(resources: &[PropfindResource]) -> (r: Vec<u8>)
    ensures
        r@ == multistatus_xml(resource_models(resources@)),
{
    let ghost all = resource_models(resources@);
    let mut xml = bytes_of("<?xml version=\"1.0\" encoding=\"utf-8\"?>");
    push_text(&mut xml, "<D:multistatus xmlns:D=\"DAV:\">");
    let mut i: usize = 0;
    assert(all.take(0) =~= Seq::empty());
    assert(xml@ =~= multistatus_head() + resources_xml(all.take(0)));
    while i < resources.len()
        invariant
            i <= resources@.len(),
            all == resource_models(resources@),
            xml@ == multistatus_head() + resources_xml(all.take(i as int)),
        decreases resources@.len() - i,
    {
        assert(all.take(i + 1).drop_last() =~= all.take(i as int));
        assert(all.take(i + 1).last() == all[i as int]);
        push_bytes(&mut xml, resource_of(&resources[i]).as_slice());
        i += 1;
        assert(xml@ =~= multistatus_head() + resources_xml(all.take(i as int)));
    }
    assert(all.take(i as int) =~= all);
    push_text(&mut xml, "</D:multistatus>");
    xml
}

// ---------------------------------------------------------------------------
// Requests
// ---------------------------------------------------------------------------

/// A request: its method, the path of its URL, the headers that matter, where
/// they are there as text, and the size of its body where that is known.
pub struct DavRequest {
    pub method: String,
    pub path: String,
    pub destination: Option<String>,
    pub depth: Option<String>,
    pub overwrite: Option<String>,
    pub if_match: Option<String>,
    pub if_none_match: Option<String>,
    pub body_size: Option<u64>,
}

/// A request.
pub struct RequestModel {
    pub method: Seq<u8>,
    pub path: Seq<u8>,
    pub destination: Option<Seq<u8>>,
    pub depth: Option<Seq<u8>>,
    pub overwrite: Option<Seq<u8>>,
    pub if_match: Option<Seq<u8>>,
    pub if_none_match: Option<Seq<u8>>,
    pub body_size: Option<u64>,
}

/// The bytes of a text that may be absent.
pub open spec fn text_bytes(s: Option<String>) -> Option<Seq<u8>> {
    match s {
        Some(x) => Some(encode_utf8(x@)),
        None => None,
    }
}

impl View for DavRequest {
    type V = RequestModel;

    open spec fn view(&self) -> RequestModel {
        RequestModel {
            method: encode_utf8(self.method@),
            path: encode_utf8(self.path@),
            destination: text_bytes(self.destination),
            depth: text_bytes(self.depth),
            overwrite: text_bytes(self.overwrite),
            if_match: text_bytes(self.if_match),
            if_none_match: text_bytes(self.if_none_match),
            body_size: self.body_size,
        }
    }
}

fn header(s: &Option<String>) -> (r: Option<&str>)
    ensures
        header_bytes(r) == text_bytes(*s),
{
    match s {
        Some(x) => Some(x.as_str()),
        None => None,
    }
}

fn header_says(s: &Option<String>, value: &[u8]) -> (r: bool)
    ensures
        r == (text_bytes(*s) == Some(value@)),
{
    match s {
        Some(x) => same_bytes(x.as_str().as_bytes(), value),
        None => false,
    }
}

/// A change to the repository.
pub enum Change {
    Write(RepoPath, Vec<u8>),
    DeletePath(RepoPath),
    DeleteSubtree(RepoPath),
    CreateDir(RepoPath),
    Copy(RepoPath, RepoPath),
    Move(RepoPath, RepoPath),
}

/// A change to the repository.
pub enum ChangeModel {
    Write(Seq<u8>, Seq<u8>),
    DeletePath(Seq<u8>),
    DeleteSubtree(Seq<u8>),
    CreateDir(Seq<u8>),
    Copy(Seq<u8>, Seq<u8>),
    Move(Seq<u8>, Seq<u8>),
}

impl View for Change {
    type V = ChangeModel;

    open spec fn view(&self) -> ChangeModel {
        match self {
            Change::Write(p, d) => ChangeModel::Write(p@, d@),
            Change::DeletePath(p) => ChangeModel::DeletePath(p@),
            Change::DeleteSubtree(p) => ChangeModel::DeleteSubtree(p@),
            Change::CreateDir(p) => ChangeModel::CreateDir(p@),
            Change::Copy(s, d) => ChangeModel::Copy(s@, d@),
            Change::Move(s, d) => ChangeModel::Move(s@, d@),
        }
    }
}

/// What to do for a request.
pub enum Step {
    /// Send this answer.
    Reply(Response),
    /// Read the body, and go on with `after_body`.
    ReadBody { path: RepoPath, file_exists: bool },
    /// Make this change, and go on with `after_change`: the status is that of
    /// the answer if the change is made.
    Perform { change: Change, status: u16 },
}

/// What to do for a request.
pub enum StepModel {
    Reply(ResponseModel),
    ReadBody { path: Seq<u8>, file_exists: bool },
    Perform { change: ChangeModel, status: u16 },
}

impl View for Step {
    type V = StepModel;

    open spec fn view(&self) -> StepModel {
        match self {
            Step::Reply(r) => StepModel::Reply(r@),
            Step::ReadBody { path, file_exists } => StepModel::ReadBody {
                path: path@,
                file_exists: *file_exists,
            },
            Step::Perform { change, status } => StepModel::Perform {
                change: change@,
                status: *status,
            },
        }
    }
}

// ---------------------------------------------------------------------------
// Handler functions
// ---------------------------------------------------------------------------

/// A file or a directory is at the path.
pub open spec fn exists_at(m: RepoModel, names: Seq<Seq<u8>>) -> bool {
    m.directory_at(names) || m.file_at(names) matches Ok(Some(_))
}

/// The answer that has the content of a file.
pub open spec fn file_answer(path: Seq<u8>, data: Seq<u8>) -> ResponseModel {
    ResponseModel {
        status: 200,
        headers: seq![
            (text("Content-Type"), media_type(extension_of(components_of(path)))),
            (text("Content-Length"), decimal(data.len())),
            (text("ETag"), etag_of(data)),
            (text("Accept-Ranges"), text("bytes")),
        ],
        body: data,
    }
}

/// The answer to GET.
pub open spec fn get_answer(
    m: RepoModel,
    path: Seq<u8>,
    if_none_match: Option<Seq<u8>>,
) -> ResponseModel {
    let names = components_of(path);
    if dav_path(names) || m.directory_at(names) {
        bare(404)
    } else {
        match m.file_at(names) {
            Err(_) => bare(500),
            Ok(None) => bare(404),
            Ok(Some(data)) => if if_none_match == Some(etag_of(data)) {
                bare(304)
            } else {
                file_answer(path, data)
            },
        }
    }
}

/// The answer to GET: the content of the file, unless the client has it.
pub fn handle_get(path: &RepoPath, req: &DavRequest, git: &GitRepo) -> (r: Response)
    ensures
        r@ == get_answer(git@, path@, req@.if_none_match),
{
    if is_dav_path(path) || git.is_directory(path) {
        return Response::bare(404);
    }
    match git.read_file(path) {
        Err(_) => Response::bare(500),
        Ok(None) => Response::bare(404),
        Ok(Some(data)) => {
            let etag = compute_etag(data.as_slice());
            if header_says(&req.if_none_match, etag.as_slice()) {
                return Response::bare(304);
            }
            let mut length: Vec<u8> = Vec::new();
            push_decimal(&mut length, data.len() as u64);
            assert(length@ =~= decimal(data@.len()));
            let r = Response { status: 200, headers: Vec::new(), body: data };
            assert(r@.headers =~= Seq::empty());
            let r = r.with_header("Content-Type", bytes_of(content_type(path))).with_header(
                "Content-Length",
                length,
            ).with_header("ETag", etag).with_header("Accept-Ranges", bytes_of("bytes"));
            assert(r@ =~= file_answer(path@, data@));
            r
        },
    }
}

/// The answer to HEAD: that to GET, without its body.
pub open spec fn head_answer(
    m: RepoModel,
    path: Seq<u8>,
    if_none_match: Option<Seq<u8>>,
) -> ResponseModel {
    ResponseModel { body: Seq::empty(), ..get_answer(m, path, if_none_match) }
}

/// The answer to HEAD: that to GET, without its body.
pub fn handle_head(path: &RepoPath, req: &DavRequest, git: &GitRepo) -> (r: Response)
    ensures
        r@ == head_answer(git@, path@, req@.if_none_match),
{
    let answer = handle_get(path, req, git);
    let r = Response { status: answer.status, headers: answer.headers, body: Vec::new() };
    assert(r@ =~= head_answer(git@, path@, req@.if_none_match));
    r
}

/// What to do for PUT before the body is read: the directory has to be there,
/// and the file, or not, where the client says so.
pub open spec fn put_step(
    m: RepoModel,
    path: Seq<u8>,
    if_none_match: Option<Seq<u8>>,
    if_match: Option<Seq<u8>>,
) -> StepModel {
    let names = components_of(path);
    if dav_path(names) {
        StepModel::Reply(bare(405))
    } else if !m.directory_at(parent_of(names)) {
        StepModel::Reply(bare(409))
    } else if if_none_match == Some(text("*")) && exists_at(m, names) {
        StepModel::Reply(bare(412))
    } else if if_match == Some(text("*")) && !exists_at(m, names) {
        StepModel::Reply(bare(412))
    } else {
        StepModel::ReadBody { path, file_exists: exists_at(m, names) }
    }
}

fn is_there(git: &GitRepo, path: &RepoPath) -> (r: bool)
    ensures
        r == exists_at(git@, components_of(path@)),
{
    git.is_directory(path) || git.file_size(path).is_some()
}

/// What to do for PUT before the body is read.
pub fn handle_put(path: &RepoPath, req: &DavRequest, git: &GitRepo) -> (r: Step)
    ensures
        r@ == put_step(git@, path@, req@.if_none_match, req@.if_match),
{
    if is_dav_path(path) {
        return Step::Reply(Response::bare(405));
    }
    let parent = path.components().parent();
    let file_exists = is_there(git, path);
    if !git.is_directory_at(&parent) {
        return Step::Reply(Response::bare(409));
    }
    if header_says(&req.if_none_match, "*".as_bytes()) && file_exists {
        return Step::Reply(Response::bare(412));
    }
    if header_says(&req.if_match, "*".as_bytes()) && !file_exists {
        return Step::Reply(Response::bare(412));
    }
    Step::ReadBody { path: path.duplicate(), file_exists }
}

/// What to do for PUT once the body was read: a body that is empty is not
/// written where no file is, as clients ask that way whether they may.
pub open spec fn body_step(path: Seq<u8>, file_exists: bool, body: Option<Seq<u8>>) -> StepModel {
    match body {
        None => StepModel::Reply(bare(500)),
        Some(data) => if data.len() == 0 && !file_exists {
            StepModel::Reply(bare(201))
        } else {
            StepModel::Perform {
                change: ChangeModel::Write(path, data),
                status: if data.len() == 0 {
                    204
                } else {
                    201
                },
            }
        },
    }
}

/// What to do for PUT once the body was read, or could not be.
pub fn after_body(path: RepoPath, file_exists: bool, body: Option<Vec<u8>>) -> (r: Step)
    ensures
        r@ == body_step(
            path@,
            file_exists,
            match body {
                Some(data) => Some(data@),
                None => None,
            },
        ),
{
    match body {
        None => Step::Reply(Response::bare(500)),
        Some(data) => {
            let empty = data.len() == 0;
            if empty && !file_exists {
                return Step::Reply(Response::bare(201));
            }
            Step::Perform {
                change: Change::Write(path, data),
                status: if empty {
                    204
                } else {
                    201
                },
            }
        },
    }
}

/// The answer once a change was made, or failed.
pub open spec fn change_answer(status: u16, made: bool) -> ResponseModel {
    bare(
        if made {
            status
        } else {
            500
        },
    )
}

/// The answer once a change was made, or failed.
pub fn after_change(status: u16, made: bool) -> (r: Response)
    ensures
        r@ == change_answer(status, made),
{
    if made {
        Response::bare(status)
    } else {
        Response::bare(500)
    }
}

/// What to do for DELETE.
pub open spec fn delete_step(m: RepoModel, path: Seq<u8>) -> StepModel {
    let names = components_of(path);
    if dav_path(names) {
        StepModel::Reply(bare(405))
    } else if !exists_at(m, names) {
        StepModel::Reply(bare(404))
    } else {
        StepModel::Perform {
            change: if m.directory_at(names) {
                ChangeModel::DeleteSubtree(path)
            } else {
                ChangeModel::DeletePath(path)
            },
            status: 204,
        }
    }
}

/// What to do for DELETE.
pub fn handle_delete(path: &RepoPath, git: &GitRepo) -> (r: Step)
    ensures
        r@ == delete_step(git@, path@),
{
    if is_dav_path(path) {
        return Step::Reply(Response::bare(405));
    }
    if !is_there(git, path) {
        return Step::Reply(Response::bare(404));
    }
    let change = if git.is_directory(path) {
        Change::DeleteSubtree(path.duplicate())
    } else {
        Change::DeletePath(path.duplicate())
    };
    Step::Perform { change, status: 204 }
}

/// What to do for MKCOL: a body is refused, and so is a path where something
/// is, or whose directory is not there.
pub open spec fn mkcol_step(m: RepoModel, path: Seq<u8>, body_size: Option<u64>) -> StepModel {
    let names = components_of(path);
    if body_size matches Some(n) && n != 0 {
        StepModel::Reply(bare(415))
    } else if exists_at(m, names) {
        StepModel::Reply(bare(405))
    } else if !m.directory_at(parent_of(names)) {
        StepModel::Reply(bare(409))
    } else {
        StepModel::Perform { change: ChangeModel::CreateDir(path), status: 201 }
    }
}

/// What to do for MKCOL.
pub fn handle_mkcol(path: &RepoPath, req: &DavRequest, git: &GitRepo) -> (r: Step)
    ensures
        r@ == mkcol_step(git@, path@, req@.body_size),
{
    if let Some(n) = req.body_size {
        if n != 0 {
            return Step::Reply(Response::bare(415));
        }
    }
    if is_there(git, path) {
        return Step::Reply(Response::bare(405));
    }
    if !git.is_directory_at(&path.components().parent()) {
        return Step::Reply(Response::bare(409));
    }
    Step::Perform { change: Change::CreateDir(path.duplicate()), status: 201 }
}

/// The answer to OPTIONS.
pub open spec fn options_answer() -> ResponseModel {
    ResponseModel {
        status: 200,
        headers: seq![
            (text("DAV"), text("1, 2, 3")),
            (text("Allow"), text("GET, HEAD, PUT, DELETE, MKCOL, COPY, MOVE, PROPFIND, OPTIONS")),
            (text("MS-Author-Via"), text("DAV")),
        ],
        body: Seq::empty(),
    }
}

/// The answer to OPTIONS.
pub fn handle_options() -> (r: Response)
    ensures
        r@ == options_answer(),
{
    let r = Response::bare(200).with_header("DAV", bytes_of("1, 2, 3")).with_header(
        "Allow",
        bytes_of("GET, HEAD, PUT, DELETE, MKCOL, COPY, MOVE, PROPFIND, OPTIONS"),
    ).with_header("MS-Author-Via", bytes_of("DAV"));
    assert(r@ =~= options_answer());
    r
}

/// What a directory tells of, without the marker files.
pub open spec fn shown(path: Seq<u8>, listing: Seq<(Seq<char>, bool, nat)>) -> Seq<ResourceModel>
    decreases listing.len(),
{
    if listing.len() == 0 {
        Seq::empty()
    } else {
        let front = shown(path, listing.drop_last());
        let (name, is_dir, len) = listing.last();
        if encode_utf8(name) == text(".DAV") {
            front
        } else {
            front.push(
                ResourceModel { path: joined(path, encode_utf8(name)), is_dir, len: len as u64 },
            )
        }
    }
}

/// What PROPFIND tells of: what is at the path, and at a depth of one what is
/// in it.
pub open spec fn propfind_resources(m: RepoModel, path: Seq<u8>, depth: Option<Seq<u8>>) -> Seq<
    ResourceModel,
> {
    let names = components_of(path);
    let is_dir = m.directory_at(names);
    let own = ResourceModel {
        path,
        is_dir,
        len: match m.file_at(names) {
            Ok(Some(data)) if !is_dir => data.len() as u64,
            _ => 0,
        },
    };
    let below = match m.listing_at(names) {
        Ok(listing) if is_dir && depth_of(depth) != Some(0u32) => shown(path, listing),
        _ => Seq::empty(),
    };
    seq![own] + below
}

/// The answer to PROPFIND.
pub open spec fn propfind_answer(m: RepoModel, path: Seq<u8>, depth: Option<Seq<u8>>) -> ResponseModel {
    let names = components_of(path);
    if dav_path(names) || !exists_at(m, names) {
        bare(404)
    } else {
        ResponseModel {
            status: 207,
            headers: seq![
                (text("Content-Type"), text("application/xml; charset=utf-8")),
                (text("DAV"), text("1, 2, 3")),
            ],
            body: multistatus_xml(propfind_resources(m, path, depth)),
        }
    }
}

/// The answer to PROPFIND.
pub fn handle_propfind(path: &RepoPath, req: &DavRequest, git: &GitRepo) -> (r: Response)
    ensures
        r@ == propfind_answer(git@, path@, req@.depth),
{
    if is_dav_path(path) || !is_there(git, path) {
        return Response::bare(404);
    }
    let depth: u32 = match parse_depth(header(&req.depth)) {
        Some(d) => d,
        None => 1,
    };
    let is_dir = git.is_directory(path);
    let len: u64 = if is_dir {
        0
    } else {
        match git.file_size(path) {
            Some(n) => n,
            None => 0,
        }
    };
    let own = PropfindResource { path: path.duplicate(), is_dir, len };
    let ghost own_model = own@;
    let mut resources: Vec<PropfindResource> = Vec::new();
    resources.push(own);
    assert(resource_models(resources@) =~= seq![own_model]);
    if depth >= 1 && is_dir {
        if let Ok(entries) = git.list_dir(path) {
            let ghost listing = crate::git::repo::listing_model(entries@);
            let mut i: usize = 0;
            assert(listing.take(0) =~= Seq::empty());
            assert(resource_models(resources@) =~= seq![own_model] + shown(path@, listing.take(0)));
            while i < entries.len()
                invariant
                    i <= entries@.len(),
                    listing == crate::git::repo::listing_model(entries@),
                    resource_models(resources@) == seq![own_model] + shown(
                        path@,
                        listing.take(i as int),
                    ),
                decreases entries@.len() - i,
            {
                let ghost before = resources@;
                assert(listing.take(i + 1).drop_last() =~= listing.take(i as int));
                assert(listing.take(i + 1).last() == listing[i as int]);
                let name = entries[i].0.as_str().as_bytes();
                if !equals(name, ".DAV") {
                    let next = PropfindResource {
                        path: path.join(name),
                        is_dir: entries[i].1,
                        len: entries[i].2,
                    };
                    let ghost model = next@;
                    resources.push(next);
                    assert(resource_models(resources@) =~= resource_models(before).push(model));
                }
                i += 1;
                assert(resource_models(resources@) =~= seq![own_model] + shown(
                    path@,
                    listing.take(i as int),
                ));
            }
            assert(listing.take(i as int) =~= listing);
        }
    }
    assert(resource_models(resources@) =~= propfind_resources(git@, path@, req@.depth));
    let r = Response {
        status: 207,
        headers: Vec::new(),
        body: build_multistatus(resources.as_slice()),
    };
    assert(r@.headers =~= Seq::empty());
    let r = r.with_header("Content-Type", bytes_of("application/xml; charset=utf-8")).with_header(
        "DAV",
        bytes_of("1, 2, 3"),
    );
    assert(r@ =~= propfind_answer(git@, path@, req@.depth));
    r
}

/// What to do for COPY and MOVE.
pub open spec fn transfer_step(
    m: RepoModel,
    path: Seq<u8>,
    destination: Option<Seq<u8>>,
    overwrite: Option<Seq<u8>>,
    is_move: bool,
) -> StepModel {
    let names = components_of(path);
    match destination_path(destination) {
        None => if dav_path(names) {
            StepModel::Reply(bare(404))
        } else {
            StepModel::Reply(bare(400))
        },
        Some(dest) => {
            let to = components_of(dest);
            if dav_path(names) || dav_path(to) || !exists_at(m, names) {
                StepModel::Reply(bare(404))
            } else if !m.directory_at(parent_of(to)) {
                StepModel::Reply(bare(409))
            } else if exists_at(m, to) && !may_overwrite(overwrite) {
                StepModel::Reply(bare(412))
            } else {
                StepModel::Perform {
                    change: if is_move {
                        ChangeModel::Move(path, dest)
                    } else {
                        ChangeModel::Copy(path, dest)
                    },
                    status: if exists_at(m, to) {
                        204
                    } else {
                        201
                    },
                }
            }
        },
    }
}

/// What to do for COPY and MOVE.
pub fn handle_copy_move(path: &RepoPath, req: &DavRequest, git: &GitRepo, is_move: bool) -> (r: Step)
    ensures
        r@ == transfer_step(git@, path@, req@.destination, req@.overwrite, is_move),
{
    if is_dav_path(path) {
        return Step::Reply(Response::bare(404));
    }
    let dest = match parse_destination(header(&req.destination)) {
        Some(dest) => dest,
        None => {
            return Step::Reply(Response::bare(400));
        },
    };
    if is_dav_path(&dest) || !is_there(git, path) {
        return Step::Reply(Response::bare(404));
    }
    if !git.is_directory_at(&dest.components().parent()) {
        return Step::Reply(Response::bare(409));
    }
    let dest_exists = is_there(git, &dest);
    if dest_exists && !parse_overwrite(header(&req.overwrite)) {
        return Step::Reply(Response::bare(412));
    }
    let change = if is_move {
        Change::Move(path.duplicate(), dest)
    } else {
        Change::Copy(path.duplicate(), dest)
    };
    Step::Perform {
        change,
        status: if dest_exists {
            204
        } else {
            201
        },
    }
}

// ---------------------------------------------------------------------------
// Locks and properties
// ---------------------------------------------------------------------------

/// The bytes of a number, the lowest first.
pub open spec fn le_bytes(n: nat, count: nat) -> Seq<u8>
    decreases count,
{
    if count == 0 {
        Seq::empty()
    } else {
        seq![(n % 256) as u8] + le_bytes(n / 256, (count - 1) as nat)
    }
}

/// What a lock is known by: the digest of the time in nanoseconds, the path
/// where it is text, and a number that is counted up.
pub open spec fn lock_token(nanos: u128, path: Seq<u8>, count: u64) -> Seq<u8> {
    hex_of(
        sha1_of(
            le_bytes(nanos as nat, 16) + (if vstd::utf8::valid_utf8(path) {
                path
            } else {
                Seq::empty()
            }) + le_bytes(count as nat, 8),
        )@,
    )
}

fn push_le(buf: &mut Vec<u8>, n: u128, count: usize)
    ensures
        final(buf)@ == old(buf)@ + le_bytes(n as nat, count as nat),
{
    let ghost start = buf@;
    let mut left: u128 = n;
    let mut i: usize = 0;
    assert(start + le_bytes(n as nat, count as nat) =~= buf@ + le_bytes(n as nat, count as nat));
    while i < count
        invariant
            i <= count,
            start + le_bytes(n as nat, count as nat) == buf@ + le_bytes(
                left as nat,
                (count - i) as nat,
            ),
        decreases count - i,
    {
        let ghost before = buf@;
        buf.push((left % 256) as u8);
        assert(before + le_bytes(left as nat, (count - i) as nat) =~= buf@ + le_bytes(
            (left / 256) as nat,
            (count - i - 1) as nat,
        ));
        left = left / 256;
        i += 1;
    }
    assert(buf@ + le_bytes(left as nat, 0) =~= buf@);
}

/// What a lock that is given at this time is known by.
pub fn lock_token_at(nanos: u128, path: &RepoPath, count: u64) -> (r: Vec<u8>)
    ensures
        r@ == lock_token(nanos, path@, count),
{
    let mut buf: Vec<u8> = Vec::new();
    push_le(&mut buf, nanos, 16);
    assert(buf@ =~= le_bytes(nanos as nat, 16));
    if is_utf8(path.raw.as_slice()) {
        push_bytes(&mut buf, path.raw.as_slice());
    } else {
        assert(buf@ =~= buf@ + Seq::empty());
    }
    push_le(&mut buf, count as u128, 8);
    hex_encode(sha1_digest(buf.as_slice()).as_slice())
}

/// What a lock that is given now is known by.
pub fn generate_lock_token(path: &RepoPath, count: u64) -> (r: Vec<u8>)
    ensures
        exists|nanos: u128| r@ == #[trigger] lock_token(nanos, path@, count),
{
    let (seconds, rest): (u64, u32) = clock();
    let nanos: u128 = seconds as u128 * 1_000_000_000 + rest as u128;
    lock_token_at(nanos, path, count)
}

/// An answer with an XML body.
pub open spec fn xml_answer(status: u16, body: Seq<u8>) -> ResponseModel {
    ResponseModel {
        status,
        headers: seq![(text("Content-Type"), text("application/xml; charset=utf-8"))],
        body,
    }
}

fn answer_xml(status: u16, body: Vec<u8>) -> (r: Response)
    ensures
        r@ == xml_answer(status, body@),
{
    let r = Response { status, headers: Vec::new(), body };
    assert(r@.headers =~= Seq::empty());
    let r = r.with_header("Content-Type", bytes_of("application/xml; charset=utf-8"));
    assert(r@ =~= xml_answer(status, body@));
    r
}

/// The answer that says that a lock is held, which is known by `token`.
pub open spec fn lock_answer(token: Seq<u8>) -> ResponseModel {
    xml_answer(
        200,
        text(
            "<?xml version=\"1.0\" encoding=\"utf-8\"?><D:prop xmlns:D=\"DAV:\"><D:lockdiscovery><D:activelock><D:locktype><D:write/></D:locktype><D:lockscope><D:exclusive/></D:lockscope><D:depth>0</D:depth><D:timeout>Infinite</D:timeout><D:locktoken><D:href>opaquelocktoken:",
        ) + xml_escaped(token) + text(
            "</D:href></D:locktoken></D:activelock></D:lockdiscovery></D:prop>",
        ),
    )
}

/// The answer that says that a lock is held.
pub fn lock_held(token: &[u8]) -> (r: Response)
    ensures
        r@ == lock_answer(token@),
{
    let mut body = bytes_of(
        "<?xml version=\"1.0\" encoding=\"utf-8\"?><D:prop xmlns:D=\"DAV:\"><D:lockdiscovery><D:activelock><D:locktype><D:write/></D:locktype><D:lockscope><D:exclusive/></D:lockscope><D:depth>0</D:depth><D:timeout>Infinite</D:timeout><D:locktoken><D:href>opaquelocktoken:",
    );
    push_escaped(&mut body, token);
    push_text(&mut body, "</D:href></D:locktoken></D:activelock></D:lockdiscovery></D:prop>");
    answer_xml(200, body)
}

/// The answer to LOCK of a server that lets everyone believe they hold a lock.
pub fn handle_lock(path: &RepoPath, count: u64) -> (r: Response)
    ensures
        exists|nanos: u128| r@ == lock_answer(#[trigger] lock_token(nanos, path@, count)),
{
    let token = generate_lock_token(path, count);
    lock_held(token.as_slice())
}

/// The answer that says that a lock is given up.
pub open spec fn unlock_answer() -> ResponseModel {
    bare(204)
}

/// The answer to UNLOCK of such a server.
pub fn handle_unlock() -> (r: Response)
    ensures
        r@ == unlock_answer(),
{
    Response::bare(204)
}

/// The answer to PROPPATCH that says that all went well.
pub open spec fn proppatch_answer(path: Seq<u8>) -> ResponseModel {
    xml_answer(
        207,
        text(
            "<?xml version=\"1.0\" encoding=\"utf-8\"?><D:multistatus xmlns:D=\"DAV:\"><D:response><D:href>",
        ) + xml_escaped(href_of(path)) + text(
            "</D:href><D:propstat><D:prop/><D:status>HTTP/1.1 200 OK</D:status></D:propstat></D:response></D:multistatus>",
        ),
    )
}

/// The answer to PROPPATCH of a server that lets everyone believe that their
/// properties are kept.
pub fn handle_proppatch(path: &RepoPath) -> (r: Response)
    ensures
        r@ == proppatch_answer(path@),
{
    let mut body = bytes_of(
        "<?xml version=\"1.0\" encoding=\"utf-8\"?><D:multistatus xmlns:D=\"DAV:\"><D:response><D:href>",
    );
    push_escaped(&mut body, href_encode(path).as_slice());
    push_text(
        &mut body,
        "</D:href><D:propstat><D:prop/><D:status>HTTP/1.1 200 OK</D:status></D:propstat></D:response></D:multistatus>",
    );
    answer_xml(207, body)
}

// ---------------------------------------------------------------------------
// Public entry point
// ---------------------------------------------------------------------------

/// What to do for a request. Locks are not given, and properties not set: LOCK
/// and UNLOCK are answered 405, as methods are that are not known, and
/// PROPPATCH 501.
pub open spec fn request_step(m: RepoModel, req: RequestModel) -> StepModel {
    let path = relative(req.path);
    if req.method == text("GET") {
        StepModel::Reply(get_answer(m, path, req.if_none_match))
    } else if req.method == text("HEAD") {
        StepModel::Reply(head_answer(m, path, req.if_none_match))
    } else if req.method == text("PUT") {
        put_step(m, path, req.if_none_match, req.if_match)
    } else if req.method == text("DELETE") {
        delete_step(m, path)
    } else if req.method == text("MKCOL") {
        mkcol_step(m, path, req.body_size)
    } else if req.method == text("OPTIONS") {
        StepModel::Reply(options_answer())
    } else if req.method == text("PROPFIND") {
        StepModel::Reply(propfind_answer(m, path, req.depth))
    } else if req.method == text("PROPPATCH") {
        StepModel::Reply(bare(501))
    } else if req.method == text("MOVE") {
        transfer_step(m, path, req.destination, req.overwrite, true)
    } else if req.method == text("COPY") {
        transfer_step(m, path, req.destination, req.overwrite, false)
    } else {
        StepModel::Reply(bare(405))
    }
}

/// What to do for a request.
pub fn handle_request(req: &DavRequest, git: &GitRepo) -> (r: Step)
    ensures
        r@ == request_step(git@, req@),
{
    let path = davpath_to_rel(req.path.as_str());
    let method = req.method.as_str().as_bytes();
    if equals(method, "GET") {
        Step::Reply(handle_get(&path, req, git))
    } else if equals(method, "HEAD") {
        Step::Reply(handle_head(&path, req, git))
    } else if equals(method, "PUT") {
        handle_put(&path, req, git)
    } else if equals(method, "DELETE") {
        handle_delete(&path, git)
    } else if equals(method, "MKCOL") {
        handle_mkcol(&path, req, git)
    } else if equals(method, "OPTIONS") {
        Step::Reply(handle_options())
    } else if equals(method, "PROPFIND") {
        Step::Reply(handle_propfind(&path, req, git))
    } else if equals(method, "PROPPATCH") {
        Step::Reply(Response::bare(501))
    } else if equals(method, "MOVE") {
        handle_copy_move(&path, req, git, true)
    } else if equals(method, "COPY") {
        handle_copy_move(&path, req, git, false)
    } else {
        Step::Reply(Response::bare(405))
    }
}

impl RepoModel {
    /// The plan of a change.
    pub open spec fn change_plan(self, change: ChangeModel) -> Result<PlanModel, RepoError> {
        match change {
            ChangeModel::Write(path, data) => self.write_plan(path, data),
            ChangeModel::DeletePath(path) => self.delete_plan(path),
            ChangeModel::DeleteSubtree(path) => self.delete_subtree_plan(path),
            ChangeModel::CreateDir(path) => self.create_dir_plan(path),
            ChangeModel::Copy(src, dest) => self.transfer_plan(src, dest, false),
            ChangeModel::Move(src, dest) => self.transfer_plan(src, dest, true),
        }
    }

    /// What a change needs to come to what it should.
    pub open spec fn sound_for(self, change: ChangeModel) -> bool {
        match change {
            ChangeModel::Write(path, _) => sound_at(self, components_of(path)),
            ChangeModel::DeletePath(path) => sound_at(self, components_of(path)),
            ChangeModel::DeleteSubtree(path) => sound_at(self, components_of(path)),
            ChangeModel::CreateDir(path) => sound_at(self, components_of(marker_path(path))),
            ChangeModel::Copy(src, dest) => transfer_sound_at(
                self,
                components_of(src),
                components_of(dest),
            ),
            ChangeModel::Move(src, dest) => transfer_sound_at(
                self,
                components_of(src),
                components_of(dest),
            ),
        }
    }

    /// What a change comes to.
    pub open spec fn change_holds(self, after: RepoModel, change: ChangeModel) -> bool {
        match change {
            ChangeModel::Write(path, data) => write_holds(self, after, components_of(path), data),
            ChangeModel::DeletePath(path) => removal_holds(self, after, components_of(path)),
            ChangeModel::DeleteSubtree(path) => removal_holds(self, after, components_of(path)),
            ChangeModel::CreateDir(path) => write_holds(
                self,
                after,
                components_of(marker_path(path)),
                Seq::empty(),
            ),
            ChangeModel::Copy(src, dest) => transfer_holds(
                self,
                after,
                components_of(src),
                components_of(dest),
                false,
            ),
            ChangeModel::Move(src, dest) => transfer_holds(
                self,
                after,
                components_of(src),
                components_of(dest),
                true,
            ),
        }
    }
}

/// Prepares the commit that makes a change.
///
/// Once it is pushed the change has come to what it should: what was written,
/// copied or moved is read, what was deleted is gone, and all else stays.
pub fn prepare_change(git: &GitRepo, change: &Change, seconds: i64) -> (r: Result<
    PendingPush,
    RepoError,
>)
    ensures
        match r {
            Ok(p) => git@.pending(git@.change_plan(change@), seconds as int) == Ok::<
                PendingModel,
                RepoError,
            >(p@) && plain_kinds(p@.objects) && pack_holds(p@) && (settled(
                git@,
                git@.change_plan(change@),
                seconds as int,
            ) && git@.sound_for(change@) ==> git@.change_holds(git@.pushed(p@), change@)),
            Err(e) => git@.pending(git@.change_plan(change@), seconds as int) == Err::<
                PendingModel,
                RepoError,
            >(e),
        },
{
    match change {
        Change::Write(path, data) => git.write_path(path, data.as_slice(), seconds),
        Change::DeletePath(path) => git.delete_path(path, seconds),
        Change::DeleteSubtree(path) => git.delete_subtree(path, seconds),
        Change::CreateDir(path) => git.create_dir(path, seconds),
        Change::Copy(src, dest) => git.copy_subtree(src, dest, seconds),
        Change::Move(src, dest) => git.move_subtree(src, dest, seconds),
    }
}

// ---------------------------------------------------------------------------
// What holds of all requests
// ---------------------------------------------------------------------------

/// HEAD has the status and the headers of GET, and no body.
pub proof fn lemma_head_mirrors_get(m: RepoModel, head: RequestModel, get: RequestModel)
    requires
        head.method == text("HEAD"),
        get.method == text("GET"),
        head.path == get.path,
        head.if_none_match == get.if_none_match,
    ensures
        request_step(m, get) matches StepModel::Reply(answer) && request_step(m, head)
            == StepModel::Reply((ResponseModel { body: Seq::empty(), ..answer })),
{
    lemma_method_lengths();
}

/// How long the names of methods are.
proof fn lemma_method_lengths()
    ensures
        text("GET").len() == 3,
        text("HEAD").len() == 4,
        text("PUT").len() == 3,
        text("DELETE").len() == 6,
        text("MKCOL").len() == 5,
        text("OPTIONS").len() == 7,
        text("PROPFIND").len() == 8,
        text("PROPPATCH").len() == 9,
        text("MOVE").len() == 4,
        text("COPY").len() == 4,
{
    reveal_strlit("GET");
    vstd::utf8::is_ascii_chars_encode_utf8("GET"@);
    reveal_strlit("HEAD");
    vstd::utf8::is_ascii_chars_encode_utf8("HEAD"@);
    reveal_strlit("PUT");
    vstd::utf8::is_ascii_chars_encode_utf8("PUT"@);
    reveal_strlit("DELETE");
    vstd::utf8::is_ascii_chars_encode_utf8("DELETE"@);
    reveal_strlit("MKCOL");
    vstd::utf8::is_ascii_chars_encode_utf8("MKCOL"@);
    reveal_strlit("OPTIONS");
    vstd::utf8::is_ascii_chars_encode_utf8("OPTIONS"@);
    reveal_strlit("PROPFIND");
    vstd::utf8::is_ascii_chars_encode_utf8("PROPFIND"@);
    reveal_strlit("PROPPATCH");
    vstd::utf8::is_ascii_chars_encode_utf8("PROPPATCH"@);
    reveal_strlit("MOVE");
    vstd::utf8::is_ascii_chars_encode_utf8("MOVE"@);
    reveal_strlit("COPY");
    vstd::utf8::is_ascii_chars_encode_utf8("COPY"@);
}

/// A file that was written is what GET answers with, unless its name is that
/// of a marker file.
pub proof fn lemma_written_is_got(m: RepoModel, after: RepoModel, path: Seq<u8>, data: Seq<u8>)
    requires
        write_holds(m, after, components_of(path), data),
        !dav_path(components_of(path)),
    ensures
        get_answer(after, path, None) == file_answer(path, data),
{
    let names = components_of(path);
    crate::git::entry::lemma_own_modes();
    assert(after.file_at(names) == Ok::<Option<Seq<u8>>, RepoError>(Some(data)));
    assert(!after.directory_at(names)) by {
        if names.len() == 0 {
            assert(after.entry_at(names) matches Ok(Some(t)) && t.0
                == crate::git::entry::directory_mode());
        }
    }
}

/// What was deleted is not found any more.
pub proof fn lemma_deleted_is_not_found(m: RepoModel, after: RepoModel, path: Seq<u8>)
    requires
        removal_holds(m, after, components_of(path)),
    ensures
        get_answer(after, path, None) == bare(404),
{
    let names = components_of(path);
    assert(after.entry_at(names) == Ok::<Option<TargetModel>, RepoError>(None));
    assert(after.file_at(names) == Ok::<Option<Seq<u8>>, RepoError>(None));
}

/// A file that was copied or moved is what GET answers with at its new path,
/// and after a move it is not found at its old one.
pub proof fn lemma_transferred_is_got(
    m: RepoModel,
    after: RepoModel,
    from: Seq<u8>,
    to: Seq<u8>,
    data: Seq<u8>,
    is_move: bool,
)
    requires
        transfer_holds(m, after, components_of(from), components_of(to), is_move),
        m.file_at(components_of(from)) == Ok::<Option<Seq<u8>>, RepoError>(Some(data)),
        !dav_path(components_of(to)),
    ensures
        get_answer(after, to, None) == file_answer(to, data),
        is_move ==> get_answer(after, from, None) == bare(404),
{
    let source = components_of(from);
    let target = components_of(to);
    crate::git::entry::lemma_own_modes();
    assert(source + Seq::<Seq<u8>>::empty() =~= source);
    assert(target + Seq::<Seq<u8>>::empty() =~= target);
    assert(after.file_at(target) == Ok::<Option<Seq<u8>>, RepoError>(Some(data)));
    assert(!after.directory_at(target)) by {
        if target.len() == 0 {
            assert(after.entry_at(target) matches Ok(Some(t)) && t.0
                == crate::git::entry::directory_mode());
        }
    }
    if is_move {
        assert(after.file_at(source) == Ok::<Option<Seq<u8>>, RepoError>(None));
    }
}

/// A client that has the content of a file is told so, and not sent it again.
pub proof fn lemma_unchanged_is_not_sent(m: RepoModel, path: Seq<u8>, data: Seq<u8>)
    requires
        get_answer(m, path, None) == file_answer(path, data),
    ensures
        get_answer(m, path, Some(etag_of(data))) == bare(304),
{
}

/// Marker files are never shown, written or taken out by name.
pub proof fn lemma_markers_are_hidden(m: RepoModel, req: RequestModel)
    requires
        dav_path(components_of(relative(req.path))),
        req.method == text("GET") || req.method == text("HEAD") || req.method == text("PUT")
            || req.method == text("DELETE") || req.method == text("PROPFIND") || req.method == text(
            "MOVE",
        ) || req.method == text("COPY"),
    ensures
        request_step(m, req) == StepModel::Reply(bare(404)) || request_step(m, req)
            == StepModel::Reply(bare(405)),
{
    lemma_method_lengths();
}

/// A client that says that a file must not be there overwrites none.
pub proof fn lemma_none_match_keeps(m: RepoModel, path: Seq<u8>, if_match: Option<Seq<u8>>)
    requires
        exists_at(m, components_of(path)),
    ensures
        put_step(m, path, Some(text("*")), if_match) is Reply,
{
}

/// A client that says so overwrites nothing by copying or moving.
pub proof fn lemma_no_overwrite_keeps(
    m: RepoModel,
    path: Seq<u8>,
    destination: Seq<u8>,
    is_move: bool,
)
    requires
        destination_path(Some(destination)) matches Some(dest) && exists_at(m, components_of(dest)),
    ensures
        transfer_step(m, path, Some(destination), Some(text("F")), is_move) is Reply,
{
}

} // verus!
