//! The immutable request value.

use vstd::prelude::*;

use crate::http::{Body, Headers, RequestMethod, Uri};

verus! {

/// A parsed request: fully immutable once built, owned by the handler
/// invocation that receives it.
#[derive(Debug)]
pub struct Request {
    pub method: RequestMethod,
    pub uri: Uri,
    pub headers: Headers,
    pub body: Body,
}

impl Request {
    /// Well-formed: the URI and the header map are.
    pub open spec fn wf(self) -> bool {
        self.uri.wf() && self.headers.wf()
    }

    pub fn new(method: RequestMethod, uri: Uri, headers: Headers, body: Body) -> (r: Self)
        ensures
            r.method == method,
            r.uri == uri,
            r.headers == headers,
            r.body == body,
    {
        Self { method, uri, headers, body }
    }

    pub fn method(&self) -> (r: &RequestMethod)
        ensures
            *r == self.method,
    {
        &self.method
    }

    pub fn uri(&self) -> (r: &Uri)
        ensures
            *r == self.uri,
    {
        &self.uri
    }

    pub fn headers(&self) -> (r: &Headers)
        ensures
            *r == self.headers,
    {
        &self.headers
    }

    pub fn body(&self) -> (r: &Body)
        ensures
            *r == self.body,
    {
        &self.body
    }
}

} // verus!
