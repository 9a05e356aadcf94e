//! A router as a handler: dispatches a request to the first matching route,
//! or to the not-found handler. Because the adapter satisfies the handler
//! capability itself, routers can be nested.

use vstd::prelude::*;

use super::router::{spec_first_match, Router};
use crate::handler::Handler;
use crate::http::{Request, Response};

verus! {

/// Wraps a router so that it satisfies the handler capability.
pub struct RouterHandler<H, N> {
    pub router: Router<H, N>,
}

impl<H: Handler<Response = Response>, N: Handler<Response = Response>> RouterHandler<H, N> {
    pub fn new(router: Router<H, N>) -> (r: Self)
        ensures
            r.router == router,
    {
        Self { router }
    }
}

impl<H: Handler<Response = Response>, N: Handler<Response = Response>> Handler for RouterHandler<
    H,
    N,
> {
    type Response = Response;

    /// Dispatches: the first route whose method and pattern accept the
    /// request serves it; otherwise the not-found handler does. Only the
    /// serving handler's state can change: every route keeps its method and
    /// pattern, and no other route's handler is touched.
    fn call(&mut self, request: Request) -> (r: Response)
        ensures
            final(self).router.routes@.len() == old(self).router.routes@.len(),
            forall|i: int| 0 <= i < old(self).router.routes@.len()
                ==> (#[trigger] final(self).router.routes@[i]).method
                == old(self).router.routes@[i].method
                && final(self).router.routes@[i].pattern
                == old(self).router.routes@[i].pattern,
    {
        let method = *request.method();
        let path = request.uri().path();
        let ghost path_view = path@;
        let ghost routes0 = self.router.routes@;
        let response = match self.router.get_handler(&method, path) {
            Some(handler) => handler.call(request),
            None => self.router.not_found().call(request),
        };
        proof {
            let routes1 = self.router.routes@;
            assert forall|i: int| 0 <= i < routes0.len() implies (#[trigger] routes1[i]).method
                == routes0[i].method && routes1[i].pattern == routes0[i].pattern by {
                assert(spec_first_match(routes0, method, path_view, 0) is Some
                    || routes1 == routes0);
            }
        }
        response
    }
}

} // verus!
