//! The error taxonomy: parse failures, transport failures, and the version
//! gap, together with their rendering as failure responses.

use vstd::prelude::*;

use vstd::string::StringSliceAdditionalSpecFns;

use crate::http::{IntoResponse, Response, StatusCode};

verus! {

/// What went wrong while parsing request bytes.
#[derive(Debug, Copy, Clone, PartialEq, Eq, Structural)]
pub enum Parse {
    /// The method field is not one of the known verbs, or its delimiter is
    /// missing.
    Method,
    /// The request target or its delimiter is missing.
    Uri,
    /// A header line is malformed.
    Header,
    /// The version field is not terminated by CRLF.
    Version,
    /// A `Content-Length` value is not a numeral that fits the buffer.
    HeaderValue,
}

/// The kind of a failure.
#[derive(Debug, Copy, Clone, PartialEq, Eq, Structural)]
pub enum Kind {
    Parse(Parse),
    UnsupportedVersion,
    Io,
}

/// A failure, with an optional cause message.
#[derive(Debug)]
pub struct Error {
    pub kind: Kind,
    pub cause: Option<String>,
}

impl Error {
    /// The operator-facing description of each kind.
    pub open spec fn spec_message(self) -> Seq<char> {
        match self.kind {
            Kind::Parse(Parse::Uri) => "invalid uri parsed"@,
            Kind::Parse(Parse::Header) => "invalid header parsed"@,
            Kind::Parse(Parse::Method) => "invalid method parsed"@,
            Kind::Parse(Parse::Version) => "invalid version parsed"@,
            Kind::Parse(Parse::HeaderValue) => "invalid header value parsed"@,
            Kind::UnsupportedVersion => "unsupported version"@,
            Kind::Io => "io error"@,
        }
    }

    pub fn new(kind: Kind) -> (r: Self)
        ensures
            r.kind == kind,
            r.cause is None,
    {
        Self { kind, cause: None }
    }

    /// Attaches a cause message.
    pub fn with(self, err: String) -> (r: Self)
        ensures
            r.kind == self.kind,
            r.cause matches Some(c) && c@ == err@,
    {
        Self { kind: self.kind, cause: Some(err) }
    }

    /// A transport failure carrying its cause.
    pub fn new_io(err: String) -> (r: Self)
        ensures
            r.kind == Kind::Io,
            r.cause matches Some(c) && c@ == err@,
    {
        Self::new(Kind::Io).with(err)
    }

    /// Writes the description of this failure.
    pub fn message(&self) -> (r: String)
        ensures
            r@ == self.spec_message(),
    {
        match self.kind {
            Kind::Parse(Parse::Uri) => String::from_str("invalid uri parsed"),
            Kind::Parse(Parse::Header) => String::from_str("invalid header parsed"),
            Kind::Parse(Parse::Method) => String::from_str("invalid method parsed"),
            Kind::Parse(Parse::Version) => String::from_str("invalid version parsed"),
            Kind::Parse(Parse::HeaderValue) => String::from_str("invalid header value parsed"),
            Kind::UnsupportedVersion => String::from_str("unsupported version"),
            Kind::Io => String::from_str("io error"),
        }
    }

    /// A parse failure of the given detail.
    pub fn from_parse(err: Parse) -> (r: Self)
        ensures
            r.kind == Kind::Parse(err),
            r.cause is None,
    {
        Self::new(Kind::Parse(err))
    }

    /// Renders the failure as a response: a parse failure is a 400, anything
    /// else a 500; the connection is then closed.
    pub fn to_response(&self) -> (r: Response)
        ensures
            match self.kind {
                Kind::Parse(_) => r.status_code == StatusCode::BadRequest && r.body.inner@
                    == "Sorry! Bad request.".spec_bytes(),
                Kind::UnsupportedVersion => r.status_code == StatusCode::InternalServerError
                    && r.body.inner@ == "HTTP version not supported.".spec_bytes(),
                Kind::Io => r.status_code == StatusCode::InternalServerError && r.body.inner@
                    == "Sorry! Internal server error.".spec_bytes(),
            },
            r.headers@ == Seq::<(Seq<char>, Seq<char>)>::empty(),
            r.wf(),
    {
        let built = match self.kind {
            Kind::Parse(_) => Response::builder().status(400).body_text("Sorry! Bad request."),
            Kind::UnsupportedVersion => Response::builder().status(500).body_text(
                "HTTP version not supported.",
            ),
            Kind::Io => Response::builder().status(500).body_text("Sorry! Internal server error."),
        };
        match built {
            Ok(resp) => resp,
            Err(_) => Response::default(),
        }
    }
}

impl IntoResponse for Error {
    fn into_response(self) -> Response {
        self.to_response()
    }
}

} // verus!
