//! The closed whitelist of status codes.

use vstd::prelude::*;

use crate::http::HttpError;

verus! {

/// A response status. Only the whitelisted numeric codes convert into a
/// status; every other number is a construction failure.
#[derive(Debug, Copy, Clone, PartialEq, Eq, Structural)]
pub enum StatusCode {
    Okay,
    Created,
    NotFound,
    Unauthorized,
    BadRequest,
    InternalServerError,
}

impl StatusCode {
    /// The numeric code and canonical reason phrase, as written on a status
    /// line.
    pub open spec fn spec_text(self) -> Seq<char> {
        match self {
            StatusCode::Okay => "200 OK"@,
            StatusCode::Created => "201 Created"@,
            StatusCode::NotFound => "404 Not Found"@,
            StatusCode::Unauthorized => "403 Unauthorized"@,
            StatusCode::BadRequest => "400 Bad Request"@,
            StatusCode::InternalServerError => "500 Internal Server Error"@,
        }
    }

    /// The status a numeric code stands for: `Some` exactly for the
    /// whitelisted codes.
    pub open spec fn spec_of_code(value: u16) -> Option<StatusCode> {
        if value == 200 {
            Some(StatusCode::Okay)
        } else if value == 201 {
            Some(StatusCode::Created)
        } else if value == 404 {
            Some(StatusCode::NotFound)
        } else if value == 403 {
            Some(StatusCode::Unauthorized)
        } else if value == 400 {
            Some(StatusCode::BadRequest)
        } else if value == 500 {
            Some(StatusCode::InternalServerError)
        } else {
            None
        }
    }

    /// Writes the status line text for this status.
    pub fn status_text(&self) -> (r: String)
        ensures
            r@ == self.spec_text(),
    {
        match self {
            StatusCode::Okay => String::from_str("200 OK"),
            StatusCode::Created => String::from_str("201 Created"),
            StatusCode::NotFound => String::from_str("404 Not Found"),
            StatusCode::Unauthorized => String::from_str("403 Unauthorized"),
            StatusCode::BadRequest => String::from_str("400 Bad Request"),
            StatusCode::InternalServerError => String::from_str("500 Internal Server Error"),
        }
    }

    /// Converts a numeric code: `Ok` for exactly the whitelisted codes,
    /// `Err` with the offending number otherwise.
    pub fn try_from(value: u16) -> (r: Result<StatusCode, HttpError>)
        ensures
            match StatusCode::spec_of_code(value) {
                Some(code) => r == Ok::<StatusCode, HttpError>(code),
                None => r == Err::<StatusCode, HttpError>(HttpError::InvalidResponseCode(value)),
            },
    {
        match value {
            200 => Ok(StatusCode::Okay),
            201 => Ok(StatusCode::Created),
            404 => Ok(StatusCode::NotFound),
            403 => Ok(StatusCode::Unauthorized),
            400 => Ok(StatusCode::BadRequest),
            500 => Ok(StatusCode::InternalServerError),
            _ => Err(HttpError::InvalidResponseCode(value)),
        }
    }
}

impl Default for StatusCode {
    /// The default status is 200.
    fn default() -> (r: Self)
        ensures
            r == StatusCode::Okay,
    {
        StatusCode::Okay
    }
}

} // verus!
