//! The router: an ordered sequence of routes and one not-found handler.
//! Route order is significant: the first route whose method and pattern
//! both accept the request wins; there is no specificity-based reordering.

use vstd::prelude::*;

use super::route::{spec_route_match, Route};
use crate::handler::Handler;
use crate::http::{RequestMethod, Response};

verus! {

/// The position of the first route at or after `i` whose method equals
/// `method` and whose pattern accepts `path`.
pub open spec fn spec_first_match<H>(
    routes: Seq<Route<H>>,
    method: RequestMethod,
    path: Seq<char>,
    i: int,
) -> Option<int>
    decreases routes.len() - i when 0 <= i <= routes.len()
{
    if i >= routes.len() {
        None
    } else if routes[i].method == method && spec_route_match(
        routes[i].pattern.deep_view(),
        path,
    ) is Some {
        Some(i)
    } else {
        spec_first_match(routes, method, path, i + 1)
    }
}

/// When no route accepts the request, the search finds nothing.
pub proof fn lemma_first_match_none<H>(
    routes: Seq<Route<H>>,
    method: RequestMethod,
    path: Seq<char>,
    i: int,
)
    requires
        0 <= i <= routes.len(),
        forall|j: int| i <= j < routes.len() ==> !(routes[j].method == method && spec_route_match(
            (#[trigger] routes[j]).pattern.deep_view(),
            path,
        ) is Some),
    ensures
        spec_first_match(routes, method, path, i) is None,
    decreases routes.len() - i,
{
    if i < routes.len() {
        lemma_first_match_none(routes, method, path, i + 1);
    }
}

/// Registration order, not specificity, decides precedence: the route
/// selected for a request is exactly the first registered one whose method
/// and pattern both accept it, whatever routes follow.
pub proof fn lemma_first_match_found<H>(
    routes: Seq<Route<H>>,
    method: RequestMethod,
    path: Seq<char>,
    i: int,
)
    requires
        0 <= i < routes.len(),
        routes[i].method == method && spec_route_match(routes[i].pattern.deep_view(), path)
            is Some,
        forall|j: int| 0 <= j < i ==> !(routes[j].method == method && spec_route_match(
            (#[trigger] routes[j]).pattern.deep_view(),
            path,
        ) is Some),
    ensures
        spec_first_match(routes, method, path, 0) == Some(i),
    decreases i,
{
    lemma_first_match_step(routes, method, path, 0, i);
}

proof fn lemma_first_match_step<H>(
    routes: Seq<Route<H>>,
    method: RequestMethod,
    path: Seq<char>,
    k: int,
    i: int,
)
    requires
        0 <= k <= i < routes.len(),
        routes[i].method == method && spec_route_match(routes[i].pattern.deep_view(), path)
            is Some,
        forall|j: int| k <= j < i ==> !(routes[j].method == method && spec_route_match(
            (#[trigger] routes[j]).pattern.deep_view(),
            path,
        ) is Some),
    ensures
        spec_first_match(routes, method, path, k) == Some(i),
    decreases i - k,
{
    if k < i {
        lemma_first_match_step(routes, method, path, k + 1, i);
    }
}

/// An ordered sequence of routes plus one mandatory not-found handler.
pub struct Router<H, N> {
    pub routes: Vec<Route<H>>,
    pub not_found: N,
}

impl<H: Handler<Response = Response>, N: Handler<Response = Response>> Router<H, N> {
    pub fn new(routes: Vec<Route<H>>, not_found: N) -> (r: Self)
        ensures
            r.routes == routes,
            r.not_found == not_found,
    {
        Self { routes, not_found }
    }

    pub fn builder(not_found: N) -> (r: RouterBuilder<H, N>)
        ensures
            r.routes@ == Seq::<Route<H>>::empty(),
            r.not_found == not_found,
    {
        RouterBuilder::new(not_found)
    }

    /// The handler of the first route whose method equals the request's and
    /// whose pattern accepts the path; nothing when no route matches.
    /// Registration order, not specificity, decides precedence.
    pub fn get_handler(&mut self, method: &RequestMethod, path: &str) -> (r: Option<&mut H>)
        ensures
            match spec_first_match(old(self).routes@, *method, path@, 0) {
                Some(i) => r.is_some() && *r.unwrap() == old(self).routes@[i].handler
                    && final(self).routes@ == old(self).routes@.update(
                    i,
                    (Route {
                        method: old(self).routes@[i].method,
                        pattern: old(self).routes@[i].pattern,
                        handler: *final(r.unwrap()),
                    }),
                ) && final(self).not_found == old(self).not_found && final(self).routes@.len()
                    == old(self).routes@.len() && (forall|k: int|
                    0 <= k < old(self).routes@.len()
                        ==> (#[trigger] final(self).routes@[k]).method
                        == old(self).routes@[k].method && final(self).routes@[k].pattern
                        == old(self).routes@[k].pattern),
                None => r.is_none() && *final(self) == *old(self),
            },
    {
        let n = self.routes.len();
        let mut i: usize = 0;
        while i < n
            invariant
                self == old(self),
                n == self.routes@.len(),
                i <= n,
                forall|j: int| 0 <= j < i ==> !(self.routes@[j].method == *method
                    && spec_route_match(
                    (#[trigger] self.routes@[j]).pattern.deep_view(),
                    path@,
                ) is Some),
            decreases n - i,
        {
            let matched = if self.routes[i].method == *method {
                self.routes[i].matches(path).is_some()
            } else {
                false
            };
            if matched {
                proof {
                    lemma_first_match_found(self.routes@, *method, path@, i as int);
                }
                let route = &mut self.routes[i];
                return Some(&mut route.handler);
            }
            i += 1;
        }
        proof {
            lemma_first_match_none(self.routes@, *method, path@, 0);
        }
        None
    }

    /// The configured fallback handler.
    pub fn not_found(&mut self) -> (r: &mut N)
        ensures
            *r == old(self).not_found,
            final(self).routes == old(self).routes,
            final(self).not_found == *final(r),
    {
        &mut self.not_found
    }
}

/// Assembles a router: routes are immutable after `build`.
pub struct RouterBuilder<H, N> {
    pub routes: Vec<Route<H>>,
    pub not_found: N,
}

impl<H: Handler<Response = Response>, N: Handler<Response = Response>> RouterBuilder<H, N> {
    pub fn new(not_found: N) -> (r: Self)
        ensures
            r.routes@ == Seq::<Route<H>>::empty(),
            r.not_found == not_found,
    {
        let routes: Vec<Route<H>> = Vec::new();
        proof {
            assert(routes@ =~= Seq::<Route<H>>::empty());
        }
        Self { routes, not_found }
    }

    /// Registers a GET route; later registrations rank behind earlier ones.
    pub fn get(self, path: &str, handler: H) -> (r: Self)
        ensures
            r.routes@.len() == self.routes@.len() + 1,
            r.routes@.subrange(0, self.routes@.len() as int) == self.routes@,
            r.routes@.last().method == RequestMethod::Get,
            r.routes@.last().pattern.deep_view() == super::route::spec_compile(path@),
            r.routes@.last().handler == handler,
            r.not_found == self.not_found,
    {
        let route = Route::new(RequestMethod::Get, path, handler);
        let mut routes = self.routes;
        routes.push(route);
        proof {
            assert(routes@.subrange(0, routes@.len() - 1) =~= self.routes@);
        }
        Self { routes, not_found: self.not_found }
    }

    /// Finishes the assembly.
    pub fn build(self) -> (r: Router<H, N>)
        ensures
            r.routes == self.routes,
            r.not_found == self.not_found,
    {
        Router { routes: self.routes, not_found: self.not_found }
    }
}

} // verus!
