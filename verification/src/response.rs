//! Responses: their parts, their text on the wire, how they are read back
//! from it, and the response that the service gives to a request.

use crate::error::Error;
use crate::headers::{key_index, Headers};
use crate::messages::{decode_message, encode_messages, MessageStore};
use crate::request::{Method, Request};
use crate::service::{answers, reply};
use crate::text::{
    after_first_token, chars_of, decimal_digits, first_token, format_unsigned, parse_unsigned,
    same_text, token_bounds, unsigned_value,
};
use crate::round_trip::{lemma_body_headers, lemma_content_types, length_matches};
use crate::wire::{
    after_line, body_of, decode_strict, first_line, header_block, line_end, read_body,
    read_headers, wire_safe, wire_value,
};
use vstd::prelude::*;
use vstd::slice::slice_subrange;
use vstd::utf8::encode_utf8;

verus! {

/// The status of a response.
#[derive(Debug, Clone, Copy, PartialEq, Eq, Structural)]
pub enum Status {
    /// 200
    Success,
    /// 404
    NotFound,
    /// 400
    BadRequest,
}

/// The status line of a status.
pub open spec fn status_text(status: Status) -> Seq<char> {
    match status {
        Status::Success => "HTTP/1.1 200 OK"@,
        Status::NotFound => "HTTP/1.1 404 NOT FOUND"@,
        Status::BadRequest => "HTTP/1.1 400 BAD REQUEST"@,
    }
}

/// The status that a status code names, if it names one. The code is read as
/// an unsigned decimal number: 200, 404 and 400 each name a status, however
/// they are written, and nothing else does.
pub open spec fn status_of(code: Seq<char>) -> Option<Status> {
    match unsigned_value(code) {
        Some(n) => if n == 200 {
            Some(Status::Success)
        } else if n == 404 {
            Some(Status::NotFound)
        } else if n == 400 {
            Some(Status::BadRequest)
        } else {
            None
        },
        None => None,
    }
}

impl Status {
    /// The status line of this status.
    pub fn to_string(&self) -> (r: String)
        ensures
            r@ == status_text(*self),
    {
        match self {
            Status::Success => "HTTP/1.1 200 OK".to_owned(),
            Status::NotFound => "HTTP/1.1 404 NOT FOUND".to_owned(),
            Status::BadRequest => "HTTP/1.1 400 BAD REQUEST".to_owned(),
        }
    }
}

/// One header on the wire: key, colon, space, value.
pub open spec fn header_line(entry: (Seq<char>, Seq<char>)) -> Seq<char> {
    entry.0 + ": "@ + entry.1
}

/// The header lines of `entries` in their order, a line break between each
/// two.
pub open spec fn header_lines(entries: Seq<(Seq<char>, Seq<char>)>) -> Seq<char>
    decreases entries.len(),
{
    if entries.len() == 0 {
        Seq::empty()
    } else if entries.len() == 1 {
        header_line(entries[0])
    } else {
        header_lines(entries.drop_last()) + "\r\n"@ + header_line(entries.last())
    }
}

/// A response on the wire: status line, header lines, a blank line, and the
/// body as it stands.
pub open spec fn wire_text(
    status: Status,
    entries: Seq<(Seq<char>, Seq<char>)>,
    body: Seq<char>,
) -> Seq<char> {
    status_text(status) + "\r\n"@ + header_lines(entries) + "\r\n\r\n"@ + body
}

/// The two headers that describe a body: its type, and its length in bytes.
pub open spec fn body_headers(content_type: Seq<char>, body: Seq<char>) -> Seq<
    (Seq<char>, Seq<char>),
> {
    seq![
        ("Content-Type"@, content_type),
        ("Content-Length"@, decimal_digits(encode_utf8(body).len())),
    ]
}

/// A response.
#[derive(Debug)]
pub struct Response {
    /// Its status.
    pub status: Status,
    /// Its headers.
    pub headers: Headers,
    /// Its body.
    pub body: String,
}

/// A response as text.
pub struct ResponseView {
    pub status: Status,
    pub headers: Map<Seq<char>, Seq<char>>,
    pub body: Seq<char>,
}

impl View for Response {
    type V = ResponseView;

    open spec fn view(&self) -> ResponseView {
        ResponseView { status: self.status, headers: self.headers@, body: self.body@ }
    }
}

/// The status that a status line names: its second token says it. The first
/// token, the protocol version, does not count.
pub open spec fn status_line(line: Seq<char>) -> Result<Status, Error> {
    match first_token(after_first_token(line)) {
        None => Err(Error::MalformedStatusLine),
        Some(code) => match status_of(code) {
            None => Err(Error::UnknownStatusCode),
            Some(status) => Ok(status),
        },
    }
}

/// The response that the byte stream `input` holds: a status line, a header
/// block, and the body that `Content-Length` announces.
pub open spec fn parse_response_spec(input: Seq<u8>) -> Result<ResponseView, Error> {
    match first_line(input) {
        None => Err(Error::ConnectionError),
        Some(line) => match status_line(line) {
            Err(e) => Err(e),
            Ok(status) => match header_block(after_line(input), Map::empty()) {
                Err(e) => Err(e),
                Ok((headers, rest)) => match body_of(headers, rest) {
                    Err(e) => Err(e),
                    Ok(None) => Err(Error::MissingBody),
                    Ok(Some(body)) => Ok(ResponseView { status, headers, body }),
                },
            },
        },
    }
}

impl Response {
    /// The response is fit for the wire: no header key occurs twice, every
    /// header can stand on a line and be read back, and `Content-Length`
    /// announces the length that the body has in bytes.
    pub open spec fn wf(&self) -> bool {
        &&& self.headers.wf()
        &&& wire_safe(self.headers.entries())
        &&& length_matches(self.headers@, self.body@)
    }

    /// A response with `status` and `body`, and with the two headers that
    /// describe the body. It is fit for the wire where the content type can
    /// stand on a header line.
    pub fn new(status: Status, content_type: &str, body: String) -> (r: Response)
        ensures
            r.status == status,
            r.body@ == body@,
            r.headers.entries() == body_headers(content_type@, body@),
            r.headers.wf(),
            wire_value(content_type@) ==> r.wf(),
    {
        let length = body.as_str().as_bytes().len();
        let mut headers = Headers::new();
        headers.insert("Content-Type".to_owned(), content_type.to_owned());
        proof {
            assert(headers.entries() =~= seq![("Content-Type"@, content_type@)]);
        }
        headers.insert("Content-Length".to_owned(), format_unsigned(length));
        proof {
            reveal_strlit("Content-Type");
            reveal_strlit("Content-Length");
            let one = seq![("Content-Type"@, content_type@)];
            assert("Content-Type"@[8] != "Content-Length"@[8]);
            assert(one.drop_first() =~= Seq::<(Seq<char>, Seq<char>)>::empty());
            assert(key_index(one.drop_first(), "Content-Length"@) == 0);
            assert(key_index(one, "Content-Length"@) == 1);
            assert(length == encode_utf8(body@).len());
            assert(headers.entries() =~= body_headers(content_type@, body@));
            if wire_value(content_type@) {
                lemma_body_headers(content_type@, body@);
            }
        }
        Response { status, headers, body }
    }

    /// The response as it goes over the wire.
    pub fn to_string(&self) -> (r: String)
        ensures
            r@ == wire_text(self.status, self.headers.entries(), self.body@),
    {
        let ghost entries = self.headers.entries();
        let mut r = self.status.to_string();
        r.append("\r\n");
        let ghost start = r@;
        let mut i: usize = 0;
        while i < self.headers.len()
            invariant
                i <= entries.len(),
                entries == self.headers.entries(),
                r@ == start + header_lines(entries.take(i as int)),
            decreases entries.len() - i,
        {
            proof {
                assert(entries.take(i as int + 1).drop_last() =~= entries.take(i as int));
                assert(entries.take(i as int + 1).last() == entries[i as int]);
            }
            if i > 0 {
                r.append("\r\n");
            }
            let (key, value) = self.headers.entry(i);
            r.append(key.as_str());
            r.append(": ");
            r.append(value.as_str());
            i += 1;
            assert(r@ =~= start + header_lines(entries.take(i as int)));
        }
        assert(entries.take(i as int) =~= entries);
        r.append("\r\n\r\n");
        r.append(self.body.as_str());
        assert(r@ =~= wire_text(self.status, entries, self.body@));
        r
    }
}

/// Reads a response from the byte stream `input`. The headers that were read
/// can stand on the wire again.
pub fn parse_response(input: &[u8]) -> (r: Result<Response, Error>)
    ensures
        match r {
            Ok(response) => parse_response_spec(input@) == Ok::<ResponseView, Error>(response@)
                && response.headers.wf() && wire_safe(response.headers.entries()),
            Err(e) => parse_response_spec(input@) == Err::<ResponseView, Error>(e),
        },
{
    assert(input@.skip(0) =~= input@);
    let end = line_end(input, 0);
    let line = match decode_strict(slice_subrange(input, 0, end)) {
        Some(line) => line,
        None => {
            return Err(Error::ConnectionError);
        },
    };
    let chars = chars_of(line);
    assert(chars@.skip(0) =~= chars@);
    let version_end = match token_bounds(chars.as_slice(), 0) {
        Some((_, b)) => b,
        None => chars.len(),
    };
    let (c, d) = match token_bounds(chars.as_slice(), version_end) {
        Some(bounds) => bounds,
        None => {
            return Err(Error::MalformedStatusLine);
        },
    };
    let status = match parse_unsigned(slice_subrange(chars.as_slice(), c, d)) {
        Some(200) => Status::Success,
        Some(404) => Status::NotFound,
        Some(400) => Status::BadRequest,
        _ => {
            return Err(Error::UnknownStatusCode);
        },
    };
    let (headers, next) = match read_headers(input, end) {
        Ok(block) => block,
        Err(e) => {
            return Err(e);
        },
    };
    let body = match read_body(&headers, input, next) {
        Ok(Some(body)) => body,
        Ok(None) => {
            return Err(Error::MissingBody);
        },
        Err(e) => {
            return Err(e);
        },
    };
    Ok(Response { status, headers, body })
}

/// The response of the service to `request`. A posted message is appended to
/// `store`; nothing else changes it.
pub fn get_response(request: Request, store: &mut MessageStore) -> (r: Result<Response, Error>)
    ensures
        match reply(request@, old(store)@) {
            Ok(reply) => r is Ok && answers(r.unwrap(), reply) && r.unwrap().wf() && final(store)@
                == reply.store,
            Err(e) => r is Err && r.unwrap_err() == e && final(store)@ == old(store)@,
        },
{
    proof {
        lemma_content_types();
    }
    if !same_text(request.uri.as_str(), "/messages") {
        return Ok(Response::new(Status::NotFound, "text/plain", "Not Found".to_owned()));
    }
    match request.method {
        Method::Get => {
            let messages = store.snapshot();
            Ok(
                Response::new(
                    Status::Success,
                    "application/json",
                    encode_messages(messages.as_slice()),
                ),
            )
        },
        Method::Post => match request.body {
            Some(text) => {
                let message = match decode_message(text.as_str()) {
                    Ok(message) => message,
                    Err(e) => {
                        return Err(e);
                    },
                };
                store.append(message);
                Ok(
                    Response::new(
                        Status::Success,
                        "application/json",
                        "{\"status\":\"ok\"}".to_owned(),
                    ),
                )
            },
            None => Ok(
                Response::new(Status::BadRequest, "text/plain", "Invalid Message".to_owned()),
            ),
        },
    }
}


} // verus!
