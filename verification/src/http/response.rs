//! The response value, its serialization to wire bytes, and the fallible
//! builder that assembles a response step by step.

use vstd::prelude::*;

use vstd::string::StringSliceAdditionalSpecFns;
use vstd::utf8::encode_utf8;

use crate::http::code::StatusCode;
use crate::http::common::{spec_insert_pair, Body, Headers};
use crate::http::HttpError;
use crate::text::{dec_digits, usize_to_string};

verus! {

/// One serialized header line, without its terminator: `name: value`.
pub open spec fn spec_header_entry(p: (Seq<char>, Seq<char>)) -> Seq<char> {
    p.0 + ": "@ + p.1
}

/// The serialized header block: the entries in order, separated (not
/// terminated) by CRLF.
pub open spec fn spec_header_block(hs: Seq<(Seq<char>, Seq<char>)>) -> Seq<char>
    decreases hs.len(),
{
    if hs.len() == 0 {
        Seq::empty()
    } else if hs.len() == 1 {
        spec_header_entry(hs[0])
    } else {
        spec_header_block(hs.drop_last()) + "\r\n"@ + spec_header_entry(hs.last())
    }
}

/// Everything of the wire form that precedes the body: status line, header
/// block and blank line.
pub open spec fn spec_response_head(status: StatusCode, hs: Seq<(Seq<char>, Seq<char>)>) -> Seq<
    char,
> {
    "HTTP/1.1 "@ + status.spec_text() + "\r\n"@ + spec_header_block(hs) + "\r\n\r\n"@
}

/// The full wire form: head, body bytes, and a trailing CRLF.
pub open spec fn spec_response_bytes(
    status: StatusCode,
    hs: Seq<(Seq<char>, Seq<char>)>,
    body: Seq<u8>,
) -> Seq<u8> {
    encode_utf8(spec_response_head(status, hs)) + body + encode_utf8("\r\n"@)
}

/// A response; the default status is 200.
#[derive(Debug)]
pub struct Response {
    pub status_code: StatusCode,
    pub headers: Headers,
    pub body: Body,
}

impl Response {
    /// Well-formed: the header map is.
    pub open spec fn wf(self) -> bool {
        self.headers.wf()
    }

    pub fn builder() -> (r: ResponseBuilder)
        ensures
            match r.inner {
                Ok(resp) => resp.status_code == StatusCode::Okay && resp.headers@ == Seq::<(
                    Seq<char>,
                    Seq<char>,
                )>::empty() && resp.body.inner@ == Seq::<u8>::empty() && resp.wf(),
                Err(_) => false,
            },
    {
        ResponseBuilder::new()
    }

    pub fn new(status_code: StatusCode, headers: Headers, body: Body) -> (r: Self)
        ensures
            r.status_code == status_code,
            r.headers == headers,
            r.body == body,
    {
        Self { status_code, headers, body }
    }

    /// A response carrying a text body and its Content-Length header.
    pub fn from_plain_text(code: StatusCode, body: &str) -> (r: Self)
        ensures
            r.status_code == code,
            r.headers@ == seq![("Content-Length"@, dec_digits(body.spec_bytes().len()))],
            r.body.inner@ == body.spec_bytes(),
            r.wf(),
    {
        let body_bytes = Body::from_text(body);
        let mut headers = Headers::new();
        let len = body_bytes.inner.len();
        proof {
            assert(len as nat == body.spec_bytes().len());
        }
        headers.insert(String::from_str("Content-Length"), usize_to_string(len));
        proof {
            assert(headers@ =~~= seq![("Content-Length"@, dec_digits(body.spec_bytes().len()))]);
        }
        Self { status_code: code, headers, body: body_bytes }
    }

    /// A 200 response carrying an HTML body, its Content-Length and a
    /// Content-Type header.
    pub fn from_html_ok(html: &str) -> (r: Self)
        ensures
            r.status_code == StatusCode::Okay,
            r.headers@ == seq![
                ("Content-Length"@, dec_digits(html.spec_bytes().len())),
                ("Content-Type"@, "text/html; charset=utf-8"@),
            ],
            r.body.inner@ == html.spec_bytes(),
            r.wf(),
    {
        let body_bytes = Body::from_text(html);
        let mut headers = Headers::new();
        let len = body_bytes.inner.len();
        proof {
            assert(len as nat == html.spec_bytes().len());
        }
        headers.insert(String::from_str("Content-Length"), usize_to_string(len));
        proof {
            assert(headers@ =~~= seq![("Content-Length"@, dec_digits(html.spec_bytes().len()))]);
        }
        headers.insert(
            String::from_str("Content-Type"),
            String::from_str("text/html; charset=utf-8"),
        );
        proof {
            reveal_strlit("Content-Length");
            reveal_strlit("Content-Type");
            assert("Content-Length"@.len() == 14);
            assert("Content-Type"@.len() == 12);
            assert("Content-Length"@ != "Content-Type"@);
            let h1 = seq![("Content-Length"@, dec_digits(html.spec_bytes().len()))];
            let t = spec_insert_pair(h1, "Content-Type"@, "text/html; charset=utf-8"@);
            assert(h1[0].0 != "Content-Type"@);
            assert(h1.skip(1).len() == 0);
            assert(spec_insert_pair(h1.skip(1), "Content-Type"@, "text/html; charset=utf-8"@)
                =~~= seq![("Content-Type"@, "text/html; charset=utf-8"@)]);
            assert(t =~~= seq![
                ("Content-Length"@, dec_digits(html.spec_bytes().len())),
                ("Content-Type"@, "text/html; charset=utf-8"@),
            ]);
            assert(headers@ =~~= seq![
                ("Content-Length"@, dec_digits(html.spec_bytes().len())),
                ("Content-Type"@, "text/html; charset=utf-8"@),
            ]);
        }
        Self { status_code: StatusCode::Okay, headers, body: body_bytes }
    }

    /// Serializes the response: status line, header lines, a blank line, the
    /// body, and a trailing CRLF.
    pub fn as_bytes(&self) -> (r: Vec<u8>)
        ensures
            r@ == spec_response_bytes(self.status_code, self.headers@, self.body.inner@),
    {
        let mut head = String::from_str("HTTP/1.1 ");
        let text = self.status_code.status_text();
        head.append(text.as_str());
        head.append("\r\n");
        let ghost prefix = "HTTP/1.1 "@ + self.status_code.spec_text() + "\r\n"@;
        let n = self.headers.entries.len();
        let mut j: usize = 0;
        while j < n
            invariant
                n == self.headers@.len(),
                j <= n,
                head@ == prefix + spec_header_block(self.headers@.take(j as int)),
            decreases n - j,
        {
            let ghost before = self.headers@.take(j as int);
            if j > 0 {
                head.append("\r\n");
            }
            head.append(self.headers.entries[j].0.as_str());
            head.append(": ");
            head.append(self.headers.entries[j].1.as_str());
            proof {
                let now = self.headers@.take(j + 1);
                assert(now.drop_last() =~= before);
                assert(now.last() == self.headers@[j as int]);
                if j == 0 {
                    assert(spec_header_block(now) == spec_header_entry(self.headers@[j as int]));
                    assert(head@ =~= prefix + spec_header_block(now));
                } else {
                    assert(spec_header_block(now) == spec_header_block(before) + "\r\n"@
                        + spec_header_entry(self.headers@[j as int]));
                    assert(head@ =~= prefix + spec_header_block(now));
                }
            }
            j += 1;
        }
        proof {
            assert(self.headers@.take(n as int) =~= self.headers@);
        }
        head.append("\r\n\r\n");
        let mut out = head.as_str().as_bytes_vec();
        proof {
            assert(out@ == encode_utf8(head@));
        }
        let m = self.body.inner.len();
        let mut i: usize = 0;
        while i < m
            invariant
                m == self.body.inner@.len(),
                i <= m,
                out@ == encode_utf8(head@) + self.body.inner@.take(i as int),
            decreases m - i,
        {
            let b = self.body.inner[i];
            out.push(b);
            proof {
                assert(self.body.inner@.take(i + 1) =~= self.body.inner@.take(i as int).push(b));
                assert(out@ =~= encode_utf8(head@) + self.body.inner@.take(i + 1));
            }
            i += 1;
        }
        proof {
            assert(self.body.inner@.take(m as int) =~= self.body.inner@);
        }
        let tail = "\r\n";
        let mut tail_bytes = tail.as_bytes_vec();
        proof {
            assert(tail_bytes@ == encode_utf8("\r\n"@));
        }
        out.append(&mut tail_bytes);
        proof {
            assert(head@ =~= spec_response_head(self.status_code, self.headers@));
            assert(out@ =~= spec_response_bytes(
                self.status_code,
                self.headers@,
                self.body.inner@,
            ));
        }
        out
    }
}

impl Default for Response {
    /// The default response: status 200, no headers, empty body.
    fn default() -> (r: Self)
        ensures
            r.status_code == StatusCode::Okay,
            r.headers@ == Seq::<(Seq<char>, Seq<char>)>::empty(),
            r.body.inner@ == Seq::<u8>::empty(),
            r.wf(),
    {
        Self { status_code: StatusCode::Okay, headers: Headers::new(), body: Body::empty() }
    }
}

/// The capability of turning a produced value into a canonical response.
pub trait IntoResponse {
    fn into_response(self) -> Response;
}

impl IntoResponse for Response {
    fn into_response(self) -> Response {
        self
    }
}

/// A builder that threads the first failure through chained calls and only
/// resolves on the final `body` call.
#[derive(Debug)]
pub struct ResponseBuilder {
    pub inner: Result<Response, HttpError>,
}

impl ResponseBuilder {
    /// Well-formed: the carried response, when there is one, is.
    pub open spec fn wf(self) -> bool {
        match self.inner {
            Ok(resp) => resp.wf(),
            Err(_) => true,
        }
    }

    pub fn new() -> (r: Self)
        ensures
            match r.inner {
                Ok(resp) => resp.status_code == StatusCode::Okay && resp.headers@ == Seq::<(
                    Seq<char>,
                    Seq<char>,
                )>::empty() && resp.body.inner@ == Seq::<u8>::empty(),
                Err(_) => false,
            },
            r.wf(),
    {
        Self { inner: Ok(Response::default()) }
    }

    /// Sets the status from a numeric code; an unsupported code becomes the
    /// builder's failure, and an earlier failure is kept unchanged.
    pub fn status(self, status: u16) -> (r: Self)
        requires
            self.wf(),
        ensures
            r.wf(),
            match self.inner {
                Err(e) => r.inner == Err::<Response, HttpError>(e),
                Ok(resp) => match StatusCode::spec_of_code(status) {
                    Some(code) => r.inner matches Ok(resp2) && resp2.status_code == code
                        && resp2.headers == resp.headers && resp2.body == resp.body,
                    None => r.inner == Err::<Response, HttpError>(
                        HttpError::InvalidResponseCode(status),
                    ),
                },
            },
    {
        match self.inner {
            Ok(resp) => match StatusCode::try_from(status) {
                Ok(code) => Self {
                    inner: Ok(Response { status_code: code, headers: resp.headers, body: resp.body }),
                },
                Err(e) => Self { inner: Err(e) },
            },
            Err(e) => Self { inner: Err(e) },
        }
    }

    /// Adds a header; an earlier failure is kept unchanged and the call
    /// becomes a no-op.
    pub fn header(self, key: &str, value: &str) -> (r: Self)
        requires
            self.wf(),
        ensures
            r.wf(),
            match self.inner {
                Err(e) => r.inner == Err::<Response, HttpError>(e),
                Ok(resp) => r.inner matches Ok(resp2) && resp2.status_code == resp.status_code
                    && resp2.headers@ == spec_insert_pair(resp.headers@, key@, value@)
                    && resp2.body == resp.body,
            },
    {
        match self.inner {
            Ok(resp) => {
                let mut headers = resp.headers;
                headers.insert(key.to_owned(), value.to_owned());
                Self {
                    inner: Ok(Response { status_code: resp.status_code, headers, body: resp.body }),
                }
            },
            Err(e) => Self { inner: Err(e) },
        }
    }

    /// Resolves the builder: the finished response with the given body, or
    /// the first failure of the chain.
    pub fn body(self, body: Body) -> (r: Result<Response, HttpError>)
        requires
            self.wf(),
        ensures
            match self.inner {
                Err(e) => r == Err::<Response, HttpError>(e),
                Ok(resp) => r matches Ok(resp2) && resp2.status_code == resp.status_code
                    && resp2.headers == resp.headers && resp2.body == body && resp2.wf(),
            },
    {
        match self.inner {
            Ok(resp) => Ok(Response {
                status_code: resp.status_code,
                headers: resp.headers,
                body,
            }),
            Err(e) => Err(e),
        }
    }

    /// Resolves the builder with a text body.
    pub fn body_text(self, body: &str) -> (r: Result<Response, HttpError>)
        requires
            self.wf(),
        ensures
            match self.inner {
                Err(e) => r == Err::<Response, HttpError>(e),
                Ok(resp) => r matches Ok(resp2) && resp2.status_code == resp.status_code
                    && resp2.headers == resp.headers && resp2.body.inner@ == body.spec_bytes()
                    && resp2.wf(),
            },
    {
        self.body(Body::from_text(body))
    }
}

} // verus!
