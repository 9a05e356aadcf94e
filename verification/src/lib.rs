//! A minimal HTTP/1.1-subset server library: a wire parser that turns request
//! bytes into a structured request, a segment-based routing engine with named
//! path parameters, a fallible response builder, and a handler abstraction
//! that lets a router serve as a handler of another router.

mod error;
mod handler;
mod http;
mod parse;
mod routing;
mod server;
mod text;
mod tree;

pub use error::{Error, Kind, Parse};
pub use handler::Handler;
pub use http::{Body, Headers, HttpError, IntoResponse, Request, RequestMethod, Response,
    ResponseBuilder, StatusCode, Uri};
pub use http::{distinct_keys, lemma_get_after_insert_other, lemma_get_after_insert_same,
    spec_get_pair, spec_insert_pair, spec_method_of};
pub use http::{lemma_uri_no_query, lemma_uri_round_trip, uri_kept, uri_path_of, uri_query_of};
pub use http::{spec_header_block, spec_header_entry, spec_response_bytes, spec_response_head};
pub use parse::Parser;
pub use parse::{is_graphic_byte, is_header_name_byte, is_header_value_byte, is_path_byte,
    is_query_byte, is_upper_byte, spec_headers, spec_parse, twl, SpecRequest};
pub use routing::{Params, Route, Router, RouterBuilder, RouterHandler, Segment};
pub use routing::{is_word_char, lemma_first_match_found, lemma_first_match_none,
    lemma_wildcard_stays_in_segment, spec_captures, spec_compile, spec_compile_segment,
    spec_first_match, spec_pattern_matches, spec_route_match, spec_segment_matches, SpecSegment};
pub use server::Server;
pub use text::{all_ascii, all_digits, chars_of, dec_digits, dec_value, is_digit,
    lemma_split_pieces_no_sep, not_sep, span, spec_split};
pub use tree::{hmax, lex_le, Cmp, Node, OrderedKey, Tree};
