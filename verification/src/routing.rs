//! The routing layer: compiled path patterns, routes, the router and its
//! builder, and the adapter that lets a router serve as a handler.

mod route;
mod route_handler;
mod router;

pub use route::{
    is_word_char, lemma_wildcard_stays_in_segment, spec_captures, spec_compile,
    spec_compile_segment, spec_pattern_matches, spec_route_match, spec_segment_matches, Params,
    Route, Segment, SpecSegment,
};
pub use route_handler::RouterHandler;
pub use router::{lemma_first_match_found, lemma_first_match_none, spec_first_match, Router,
    RouterBuilder};
