//! The HTTP side of the device: reading a request head, deciding what to do with it, the
//! replies to firmware uploads, and the bytes of an ordinary reply.

use vstd::prelude::*;
use vstd::string::StringSliceAdditionalSpecFns;

pub use crate::types::{Handler, Response};

use crate::ota::{auth_accepted_with, check_auth_with};
use crate::text::{
    all_digits, decimal_digits, decimal_value, format_u32, is_digit, push_bytes, str_eq,
};

verus! {

/// The most header lines read from a request.
pub const MAX_HEADERS: usize = 16;

/// A request header line: its name and raw value.
pub struct HeaderField {
    pub name: String,
    pub value: Vec<u8>,
}

/// The parsed head of a request: its length in bytes, method, path and header lines.
pub struct RequestHead {
    pub header_len: usize,
    pub method: Option<String>,
    pub path: Option<String>,
    pub headers: Vec<HeaderField>,
}

/// A header line as values.
pub struct HeaderFieldView {
    pub name: Seq<char>,
    pub value: Seq<u8>,
}

/// A request head as values.
pub struct RequestHeadView {
    pub header_len: nat,
    pub method: Option<Seq<char>>,
    pub path: Option<Seq<char>>,
    pub headers: Seq<HeaderFieldView>,
}

impl View for HeaderField {
    type V = HeaderFieldView;

    open spec fn view(&self) -> HeaderFieldView {
        HeaderFieldView { name: self.name@, value: self.value@ }
    }
}

/// The value of an optional string.
pub open spec fn opt_chars(s: Option<String>) -> Option<Seq<char>> {
    match s {
        Some(v) => Some(v@),
        None => None,
    }
}

impl View for RequestHead {
    type V = RequestHeadView;

    open spec fn view(&self) -> RequestHeadView {
        RequestHeadView {
            header_len: self.header_len as nat,
            method: opt_chars(self.method),
            path: opt_chars(self.path),
            headers: self.headers@.map_values(|h: HeaderField| h@),
        }
    }
}

/// The value of an optional request head.
pub open spec fn opt_head(h: Option<RequestHead>) -> Option<RequestHeadView> {
    match h {
        Some(v) => Some(v@),
        None => None,
    }
}

/// What `httparse` makes of the bytes `buf` as a request head, reading at most `max_headers`
/// header lines: the head when it is complete and well-formed, `None` otherwise.
pub uninterp spec fn http_request_head(buf: Seq<u8>, max_headers: nat) -> Option<RequestHeadView>;

/// Parses the head of a request with `httparse::Request::parse`.
///
/// Trusted: the result is the head that `httparse` reports for `buf` (as named by
/// `http_request_head`), or `None` when it reports an incomplete or malformed head; a
/// complete head never extends past `buf`.
#[verifier::external_body]
fn parse_request_head(buf: &[u8], max_headers: usize) -> (r: Option<RequestHead>)
    ensures
        opt_head(r) == http_request_head(buf@, max_headers as nat),
        r matches Some(h) ==> h.header_len <= buf@.len(),
{
    let mut headers = vec![httparse::EMPTY_HEADER; max_headers];
    let mut req = httparse::Request::new(&mut headers);
    match req.parse(buf) {
        Ok(httparse::Status::Complete(n)) => Some(RequestHead {
            header_len: n,
            method: req.method.map(String::from),
            path: req.path.map(String::from),
            headers: req.headers.iter().map(|h| HeaderField { name: String::from(h.name), value: h.value.to_vec() }).collect(),
        }),
        Ok(httparse::Status::Partial) => None,
        Err(_) => None,
    }
}

/// ASCII lower case of a byte; other bytes are unchanged.
pub open spec fn ascii_lower(b: u8) -> u8 {
    if 65 <= b <= 90 {
        (b + 32) as u8
    } else {
        b
    }
}

/// The two byte strings are equal up to ASCII case.
pub open spec fn eq_ignore_ascii_case(a: Seq<u8>, b: Seq<u8>) -> bool {
    a.len() == b.len() && forall|i: int| 0 <= i < a.len() ==> ascii_lower(#[trigger] a[i]) == ascii_lower(b[i])
}

/// The value of the first header line named `name` (ignoring ASCII case).
pub open spec fn header_value(headers: Seq<HeaderFieldView>, name: Seq<u8>) -> Option<Seq<u8>>
    decreases headers.len(),
{
    if headers.len() == 0 {
        None
    } else if eq_ignore_ascii_case(vstd::utf8::encode_utf8(headers[0].name), name) {
        Some(headers[0].value)
    } else {
        header_value(headers.drop_first(), name)
    }
}

/// A `Content-Length` value read as an unsigned number: an optional `+`, then one or more
/// digits whose value fits in a `usize`.
pub open spec fn content_length_value(v: Seq<u8>) -> Option<nat> {
    let d = if v.len() > 0 && v[0] == 43 {
        v.drop_first()
    } else {
        v
    };
    if d.len() > 0 && all_digits(d) && decimal_value(d) <= usize::MAX {
        Some(decimal_value(d))
    } else {
        None
    }
}

/// What the server does with a request.
pub enum Dispatch {
    /// The head could not be read: answer `400 Bad Request`.
    BadRequest,
    /// A firmware upload: its `Authorization` value, its `Content-Length` if readable, and where
    /// the body starts in the received bytes.
    Ota { auth: Option<Vec<u8>>, content_length: Option<usize>, body_start: usize },
    /// Anything else goes to the handler.
    Handle { method: String, path: String },
}

/// The method of a head, `GET` when it has none.
pub open spec fn method_or_default(h: RequestHeadView) -> Seq<char> {
    match h.method {
        Some(m) => m,
        None => "GET"@,
    }
}

/// The path of a head, `/` when it has none.
pub open spec fn path_or_default(h: RequestHeadView) -> Seq<char> {
    match h.path {
        Some(p) => p,
        None => "/"@,
    }
}

/// `POST /ota` is a firmware upload.
pub open spec fn is_upload(h: RequestHeadView) -> bool {
    method_or_default(h) == "POST"@ && path_or_default(h) == "/ota"@
}

/// The value of an optional byte vector.
pub open spec fn opt_bytes(v: Option<Vec<u8>>) -> Option<Seq<u8>> {
    match v {
        Some(b) => Some(b@),
        None => None,
    }
}

/// The upload length a head declares.
pub open spec fn declared_length(h: RequestHeadView) -> Option<nat> {
    match header_value(h.headers, "Content-Length".spec_bytes()) {
        Some(v) => content_length_value(v),
        None => None,
    }
}

/// `d` is what the server does with a request whose parsed head is `head`.
pub open spec fn dispatches(d: Dispatch, head: Option<RequestHeadView>) -> bool {
    match head {
        None => d is BadRequest,
        Some(h) => if is_upload(h) {
            &&& d matches Dispatch::Ota { auth, content_length, body_start }
            &&& opt_bytes(auth) == header_value(h.headers, "Authorization".spec_bytes())
            &&& (match content_length {
                Some(l) => declared_length(h) == Some(l as nat),
                None => declared_length(h) is None,
            })
            &&& body_start == h.header_len
        } else {
            &&& d matches Dispatch::Handle { method, path }
            &&& method@ == method_or_default(h)
            &&& path@ == path_or_default(h)
        },
    }
}

/// Only a `POST` to `/ota` is a firmware upload: any request whose method (`GET` when absent) is
/// not `POST`, or whose path (`/` when absent) is not `/ota`, goes to the handler with that
/// method and path; a parsed head is never answered `400 Bad Request`.
pub proof fn lemma_only_post_uploads(d: Dispatch, h: RequestHeadView)
    requires
        dispatches(d, Some(h)),
    ensures
        !(d is BadRequest),
        d is Ota ==> h.method == Some("POST"@) && h.path == Some("/ota"@),
        h.method != Some("POST"@) || h.path != Some("/ota"@) ==> {
            &&& d matches Dispatch::Handle { method, path }
            &&& method@ == match h.method { Some(m) => m, None => "GET"@ }
            &&& path@ == match h.path { Some(p) => p, None => "/"@ }
        },
{
    reveal_strlit("GET");
    reveal_strlit("POST");
    reveal_strlit("/");
    reveal_strlit("/ota");
    assert("GET"@ != "POST"@) by {
        assert("GET"@[0] != "POST"@[0]);
    }
    assert("/"@ != "/ota"@) by {
        assert("/"@.len() != "/ota"@.len());
    }
}

/// A declared upload length reads back: a plain run of digits whose value fits in a `usize` is
/// read as that value, a `+` in front changes nothing, and any length that is read is the value
/// of non-empty digits.
pub proof fn lemma_content_length_reads(v: Seq<u8>)
    ensures
        v.len() > 0 && all_digits(v) && decimal_value(v) <= usize::MAX
            ==> content_length_value(v) == Some(decimal_value(v)),
        v.len() > 0 && all_digits(v) ==> content_length_value(seq![43u8] + v) == content_length_value(v),
        content_length_value(v) matches Some(n) ==> {
            let d = if v.len() > 0 && v[0] == 43 { v.skip(1) } else { v };
            &&& d.len() > 0
            &&& all_digits(d)
            &&& decimal_value(d) == n
            &&& n <= usize::MAX
        },
{
    if v.len() > 0 && all_digits(v) {
        assert(v[0] != 43) by {
            assert(is_digit(v[0]));
        }
        let w = seq![43u8] + v;
        assert(w.drop_first() =~= v);
    }
    if v.len() > 0 && v[0] == 43 {
        assert(v.skip(1) =~= v.drop_first());
    }
}

/// The two byte strings are equal up to ASCII case.
fn bytes_eq_ignore_ascii_case(a: &[u8], b: &[u8]) -> (r: bool)
    ensures
        r == eq_ignore_ascii_case(a@, b@),
{
    if a.len() != b.len() {
        return false;
    }
    let mut i: usize = 0;
    while i < a.len()
        invariant
            a@.len() == b@.len(),
            i <= a@.len(),
            forall|k: int| 0 <= k < i ==> ascii_lower(#[trigger] a@[k]) == ascii_lower(b@[k]),
        decreases a@.len() - i,
    {
        let x = a[i];
        let y = b[i];
        let lx = if x >= 65 && x <= 90 { x + 32 } else { x };
        let ly = if y >= 65 && y <= 90 { y + 32 } else { y };
        if lx != ly {
            return false;
        }
        i = i + 1;
    }
    true
}

/// The value of the first header line named `name`, ignoring ASCII case.
fn find_header<'a>(headers: &'a Vec<HeaderField>, name: &str) -> (r: Option<&'a [u8]>)
    ensures
        match r {
            Some(v) => header_value(headers@.map_values(|h: HeaderField| h@), name.spec_bytes()) == Some(v@),
            None => header_value(headers@.map_values(|h: HeaderField| h@), name.spec_bytes()) is None,
        },
{
    let ghost all = headers@.map_values(|h: HeaderField| h@);
    let mut i: usize = 0;
    assert(all.skip(0) =~= all);
    while i < headers.len()
        invariant
            i <= headers@.len(),
            all == headers@.map_values(|h: HeaderField| h@),
            header_value(all, name.spec_bytes()) == header_value(all.skip(i as int), name.spec_bytes()),
        decreases headers@.len() - i,
    {
        let h = &headers[i];
        let ghost rest = all.skip(i as int);
        assert(rest[0] == h@);
        assert(rest.drop_first() =~= all.skip(i + 1));
        if bytes_eq_ignore_ascii_case(h.name.as_str().as_bytes(), name.as_bytes()) {
            return Some(h.value.as_slice());
        }
        i = i + 1;
    }
    None
}

/// Reads a `Content-Length` value: an optional `+` and then digits, the value fitting in a
/// `usize`; anything else gives `None`.
pub fn parse_content_length(v: &[u8]) -> (r: Option<usize>)
    ensures
        match r {
            Some(l) => content_length_value(v@) == Some(l as nat),
            None => content_length_value(v@) is None,
        },
{
    let start: usize = if v.len() > 0 && v[0] == 43 { 1 } else { 0 };
    let ghost d = v@.skip(start as int);
    assert(d =~= if v@.len() > 0 && v@[0] == 43 { v@.drop_first() } else { v@ });
    if start >= v.len() {
        return None;
    }
    let mut n: usize = 0;
    let mut i: usize = start;
    assert(d.take(0) =~= Seq::<u8>::empty());
    while i < v.len()
        invariant
            start <= i <= v@.len(),
            start < v@.len(),
            d == v@.skip(start as int),
            d == (if v@.len() > 0 && v@[0] == 43 { v@.drop_first() } else { v@ }),
            all_digits(d.take(i - start)),
            n == decimal_value(d.take(i - start)),
        decreases v@.len() - i,
    {
        let c = v[i];
        if c < 48 || c > 57 {
            assert(d[i - start] == v@[i as int]);
            assert(!is_digit(d[i - start]));
            return None;
        }
        proof {
            crate::text::lemma_decimal_take_step(d, i - start);
            assert(all_digits(d.take(i - start + 1))) by {
                assert forall|k: int| 0 <= k < i - start + 1 implies is_digit(#[trigger] d.take(i - start + 1)[k]) by {
                    if k < i - start {
                        assert(d.take(i - start + 1)[k] == d.take(i - start)[k]);
                    }
                }
            }
        }
        match n.checked_mul(10) {
            None => {
                proof {
                    if all_digits(d) {
                        crate::text::lemma_decimal_prefix_le(d, i - start + 1);
                    }
                }
                return None;
            },
            Some(m) => match m.checked_add((c - 48) as usize) {
                None => {
                    proof {
                        if all_digits(d) {
                            crate::text::lemma_decimal_prefix_le(d, i - start + 1);
                        }
                    }
                    return None;
                },
                Some(x) => {
                    n = x;
                },
            },
        }
        i = i + 1;
    }
    assert(d.take(i - start) =~= d);
    Some(n)
}

/// Decides what to do with a request whose parsed head is `head`.
pub fn classify(head: Option<RequestHead>) -> (d: Dispatch)
    ensures
        dispatches(d, opt_head(head)),
{
    match head {
        None => Dispatch::BadRequest,
        Some(h) => {
            let ghost hv = h@;
            let method = match h.method {
                Some(m) => m,
                None => "GET".to_owned(),
            };
            let path = match h.path {
                Some(p) => p,
                None => "/".to_owned(),
            };
            if str_eq(method.as_str(), "POST") && str_eq(path.as_str(), "/ota") {
                let auth = match find_header(&h.headers, "Authorization") {
                    Some(v) => Some(vstd::slice::slice_to_vec(v)),
                    None => None,
                };
                let content_length = match find_header(&h.headers, "Content-Length") {
                    Some(v) => parse_content_length(v),
                    None => None,
                };
                Dispatch::Ota { auth, content_length, body_start: h.header_len }
            } else {
                Dispatch::Handle { method, path }
            }
        },
    }
}

/// What the server does with the received bytes `buf` of a request.
pub fn dispatch(buf: &[u8]) -> (d: Dispatch)
    ensures
        dispatches(d, http_request_head(buf@, MAX_HEADERS as nat)),
        d matches Dispatch::Ota { body_start, .. } ==> body_start <= buf@.len(),
{
    classify(parse_request_head(buf, MAX_HEADERS))
}

/// The reply to a request whose head could not be read.
pub const BAD_REQUEST_REPLY: &'static str = "HTTP/1.1 400 Bad Request\r\n\r\n";

/// The reply to an upload with the wrong credentials.
pub const UNAUTHORIZED_REPLY: &'static str =
    "HTTP/1.1 401 Unauthorized\r\nContent-Type: text/plain\r\nContent-Length: 16\r\n\r\nInvalid password";

/// The reply to an upload without a usable length.
pub const MISSING_LENGTH_REPLY: &'static str =
    "HTTP/1.1 400 Bad Request\r\nContent-Type: text/plain\r\nContent-Length: 22\r\n\r\nMissing Content-Length";

/// The reply to a completed upload, sent before the device restarts.
pub const OTA_SUCCESS_REPLY: &'static str =
    "HTTP/1.1 200 OK\r\nContent-Type: text/plain\r\nContent-Length: 35\r\n\r\nOTA update successful, rebooting...";

/// The reply to a failed upload.
pub const OTA_FAILURE_REPLY: &'static str =
    "HTTP/1.1 500 Internal Server Error\r\nContent-Type: text/plain\r\nContent-Length: 9\r\n\r\nOTA failed";

/// Whether a firmware upload is taken on.
pub enum OtaAdmission {
    /// The credentials are wrong: answer `UNAUTHORIZED_REPLY`.
    Unauthorized,
    /// There is no positive `Content-Length`: answer `MISSING_LENGTH_REPLY`.
    MissingLength,
    /// Write an image of this many bytes.
    Accept(usize),
}

/// Decides on an upload from its `Authorization` value and declared length, under the upload
/// password `password`: the credentials are checked first, then the length must be present
/// and positive.
pub fn admit_ota(auth: Option<&[u8]>, password: &str, content_length: Option<usize>) -> (r: OtaAdmission)
    ensures
        !auth_accepted_with(match auth { Some(v) => Some(v@), None => None }, password.spec_bytes()) ==> r is Unauthorized,
        auth_accepted_with(match auth { Some(v) => Some(v@), None => None }, password.spec_bytes()) ==> match content_length {
            Some(l) if l > 0 => r == OtaAdmission::Accept(l),
            _ => r is MissingLength,
        },
{
    if !check_auth_with(auth, password) {
        return OtaAdmission::Unauthorized;
    }
    match content_length {
        Some(l) => {
            if l > 0 {
                OtaAdmission::Accept(l)
            } else {
                OtaAdmission::MissingLength
            }
        },
        None => OtaAdmission::MissingLength,
    }
}

/// The reply to an upload that was not taken on.
pub fn refusal_reply(a: &OtaAdmission) -> (r: Option<&'static str>)
    ensures
        match *a {
            OtaAdmission::Unauthorized => r == Some(UNAUTHORIZED_REPLY),
            OtaAdmission::MissingLength => r == Some(MISSING_LENGTH_REPLY),
            OtaAdmission::Accept(_) => r is None,
        },
{
    match a {
        OtaAdmission::Unauthorized => Some(UNAUTHORIZED_REPLY),
        OtaAdmission::MissingLength => Some(MISSING_LENGTH_REPLY),
        OtaAdmission::Accept(_) => None,
    }
}

/// The reply once an accepted upload has ended, successfully or not.
pub fn upload_reply(succeeded: bool) -> (r: &'static str)
    ensures
        r == if succeeded { OTA_SUCCESS_REPLY } else { OTA_FAILURE_REPLY },
{
    if succeeded {
        OTA_SUCCESS_REPLY
    } else {
        OTA_FAILURE_REPLY
    }
}

/// The `Content-Length` a reply announces: the body length taken modulo `2^32`.
pub open spec fn announced_length(body_len: nat) -> nat {
    body_len % 0x1_0000_0000
}

/// A reply whose body is shorter than 4 GiB announces exactly the length of its body.
pub proof fn lemma_announced_length_exact(body_len: nat)
    requires
        body_len < 0x1_0000_0000,
    ensures
        announced_length(body_len) == body_len,
{
}

/// The bytes of a reply: status line, `Content-Type` and `Content-Length` headers, a blank line
/// and the body.
pub open spec fn response_bytes(status: Seq<char>, content_type: Seq<char>, body: Seq<u8>) -> Seq<u8> {
    "HTTP/1.1 ".spec_bytes() + vstd::utf8::encode_utf8(status) + "\r\nContent-Type: ".spec_bytes()
        + vstd::utf8::encode_utf8(content_type) + "\r\nContent-Length: ".spec_bytes()
        + decimal_digits(announced_length(body.len())) + "\r\n\r\n".spec_bytes() + body
}

/// The head of a reply up to its `Content-Length` value.
pub open spec fn reply_head(status: Seq<char>, content_type: Seq<char>) -> Seq<u8> {
    "HTTP/1.1 ".spec_bytes() + vstd::utf8::encode_utf8(status) + "\r\nContent-Type: ".spec_bytes()
        + vstd::utf8::encode_utf8(content_type) + "\r\nContent-Length: ".spec_bytes()
}

/// A reply whose body is shorter than 4 GiB reads back correctly: after the head come the
/// `Content-Length` digits, which are a canonical decimal number equal to the body's length,
/// then the blank line, then exactly the body.
pub proof fn lemma_reply_reads_back(status: Seq<char>, content_type: Seq<char>, body: Seq<u8>)
    requires
        body.len() < 0x1_0000_0000,
    ensures
        ({
            let out = response_bytes(status, content_type, body);
            let p = reply_head(status, content_type).len() as int;
            let q = out.len() - 4 - body.len();
            &&& out.take(p) == reply_head(status, content_type)
            &&& p < q
            &&& all_digits(out.subrange(p, q))
            &&& decimal_value(out.subrange(p, q)) == body.len()
            &&& (out[p] == 48 ==> q == p + 1)
            &&& out.subrange(q, q + 4) == seq![13u8, 10u8, 13u8, 10u8]
            &&& out.skip(q + 4) == body
        }),
{
    reveal_strlit("\r\n\r\n");
    vstd::string::is_ascii_spec_bytes("\r\n\r\n");
    let crlf2 = "\r\n\r\n".spec_bytes();
    assert(crlf2 =~= seq![13u8, 10u8, 13u8, 10u8]);
    let head = reply_head(status, content_type);
    let d = decimal_digits(announced_length(body.len()));
    assert(announced_length(body.len()) == body.len());
    crate::text::lemma_decimal_digits_roundtrip(body.len());
    let out = response_bytes(status, content_type, body);
    assert(out =~= head + d + crlf2 + body);
    let p = head.len() as int;
    let q = out.len() - 4 - body.len();
    assert(q == p + d.len());
    assert(out.take(p) =~= head);
    assert(out.subrange(p, q) =~= d);
    assert(out.subrange(q, q + 4) =~= crlf2);
    assert(out.skip(q + 4) =~= body);
    if out[p] == 48 && d.len() > 1 {
        assert(d[0] == out[p]);
        lemma_canonical_no_leading_zero(body.len());
    }
}

proof fn lemma_canonical_no_leading_zero(n: nat)
    ensures
        decimal_digits(n).len() > 1 ==> decimal_digits(n)[0] != 48,
    decreases n,
{
    if n >= 10 {
        lemma_canonical_no_leading_zero(n / 10);
        crate::text::lemma_decimal_digits_roundtrip(n / 10);
        assert(decimal_digits(n)[0] == decimal_digits(n / 10)[0]);
        if n / 10 < 10 {
            assert(n / 10 >= 1);
            assert(decimal_digits(n / 10) == seq![(48 + n / 10) as u8]);
            assert(decimal_digits(n / 10)[0] != 48);
        } else {
            assert(decimal_digits(n / 10).len() > 1) by {
                assert(decimal_digits(n / 10) == decimal_digits(n / 10 / 10).push((48 + (n / 10) % 10) as u8));
                crate::text::lemma_decimal_digits_roundtrip(n / 10 / 10);
            }
        }
    }
}

/// The bytes sent for `resp`.
pub fn render_response(resp: &Response) -> (out: Vec<u8>)
    ensures
        out@ == response_bytes(resp.status@, resp.content_type@, resp.body@),
{
    let mut out: Vec<u8> = Vec::new();
    push_bytes(&mut out, "HTTP/1.1 ".as_bytes());
    push_bytes(&mut out, resp.status.as_bytes());
    push_bytes(&mut out, "\r\nContent-Type: ".as_bytes());
    push_bytes(&mut out, resp.content_type.as_bytes());
    push_bytes(&mut out, "\r\nContent-Length: ".as_bytes());
    let mut len_buf = [0u8; 10];
    let blen = resp.body.len();
    let n = blen as u32;
    assert(n as nat == announced_length(blen as nat)) by (bit_vector)
        requires
            n == blen as u32,
    ;
    let len_str = format_u32(n, &mut len_buf);
    push_bytes(&mut out, len_str);
    push_bytes(&mut out, "\r\n\r\n".as_bytes());
    push_bytes(&mut out, resp.body);
    out
}

/// The HTTP server, holding the handler of ordinary requests.
pub struct Server<H: Handler> {
    handler: H,
}

impl<H: Handler> Server<H> {
    /// A server that hands ordinary requests to `handler`.
    pub fn new(handler: H) -> (s: Self)
        ensures
            s.handler() == handler,
    {
        Server { handler }
    }

    /// The handler of ordinary requests.
    pub closed spec fn handler(&self) -> H {
        self.handler
    }

    /// The handler of ordinary requests.
    pub fn handler_ref(&self) -> (h: &H)
        ensures
            *h == self.handler(),
    {
        &self.handler
    }
}

} // verus!
