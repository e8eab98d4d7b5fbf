//! The reply a request handler produces, and the handler interface.

use vstd::prelude::*;
use vstd::string::StringSliceAdditionalSpecFns;

verus! {

/// An HTTP reply: status line text, content type and body.
pub struct Response<'a> {
    pub status: &'a str,
    pub content_type: &'a str,
    pub body: &'a [u8],
}

impl<'a> Response<'a> {
    /// A `200 OK` reply with the given content type and body.
    pub fn ok(content_type: &'a str, body: &'a [u8]) -> (r: Self)
        ensures
            r.status@ == "200 OK"@,
            r.content_type == content_type,
            r.body == body,
    {
        Response { status: "200 OK", content_type, body }
    }

    /// The `404 Not Found` reply, a plain-text `Not Found`.
    pub fn not_found() -> (r: Self)
        ensures
            r.status@ == "404 Not Found"@,
            r.content_type@ == "text/plain"@,
            r.body@ == "Not Found".spec_bytes(),
    {
        Response { status: "404 Not Found", content_type: "text/plain", body: "Not Found".as_bytes() }
    }
}

/// Answers a request, given its method and path (with any query string).
pub trait Handler {
    fn handle(&self, method: &str, path: &str) -> Response<'static>;
}

} // verus!
