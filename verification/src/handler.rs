//! The handler capability: consume one request, produce one
//! response-convertible value. A router satisfies it too, which makes
//! routers nestable.

use vstd::prelude::*;

use crate::http::Request;

verus! {

/// The capability of turning a request into a response-convertible value.
/// Parsing and routing stay synchronous; only the transport layer around
/// the library suspends.
pub trait Handler {
    type Response;

    fn call(&mut self, request: Request) -> Self::Response
        requires
            request.wf(),
    ;
}

} // verus!
