//! HTTP data model: methods, status codes, bodies, headers, URIs, requests
//! and responses.

mod code;
mod common;
mod method;
mod request;
mod response;
mod uri;

pub use code::StatusCode;
pub use common::Body;
pub use common::Headers;
pub use common::{distinct_keys, lemma_get_after_insert_other, lemma_get_after_insert_same,
    spec_get_pair, spec_insert_pair};
pub use method::spec_method_of;
pub use response::{spec_header_block, spec_header_entry, spec_response_bytes, spec_response_head};
pub use uri::{lemma_uri_no_query, lemma_uri_round_trip, uri_kept, uri_path_of, uri_query_of};
pub use method::RequestMethod;
pub use request::Request;
pub use response::IntoResponse;
pub use response::Response;
pub use response::ResponseBuilder;
pub use uri::Uri;

use vstd::prelude::*;

verus! {

/// A failure raised while building a response from application-supplied
/// pieces.
#[derive(Debug, Clone, PartialEq, Eq)]
pub enum HttpError {
    /// The numeric code is not one of the supported status codes.
    InvalidResponseCode(u16),
    /// A header is malformed.
    InvalidHeader(String),
    /// A request line is malformed.
    InvalidRequestLine(String),
    /// A header value has the wrong shape for its name.
    InvalidHeaderValue(String, String),
}

} // verus!
