//! Requests: their parts, and how they are read from the wire.

use crate::error::Error;
use crate::headers::Headers;
use crate::text::{after_first_token, chars_of, first_token, same_text, token_bounds};
use crate::wire::{
    after_line, body_of, decode_strict, first_line, header_block, line_end, read_body,
    read_headers, wire_safe,
};
use vstd::prelude::*;
use vstd::slice::slice_subrange;

verus! {

/// The method of a request.
#[derive(Debug, Clone, Copy, PartialEq, Eq, Structural, Hash)]
pub enum Method {
    /// `GET`
    Get,
    /// `POST`
    Post,
}

/// The method that a token names, if it names one.
pub open spec fn method_of(token: Seq<char>) -> Option<Method> {
    if token == "GET"@ {
        Some(Method::Get)
    } else if token == "POST"@ {
        Some(Method::Post)
    } else {
        None
    }
}

/// The token that names a method.
pub open spec fn method_text(method: Method) -> Seq<char> {
    match method {
        Method::Get => "GET"@,
        Method::Post => "POST"@,
    }
}

impl Method {
    /// The token that names this method.
    pub fn to_string(&self) -> (r: String)
        ensures
            r@ == method_text(*self),
    {
        match self {
            Method::Get => "GET".to_owned(),
            Method::Post => "POST".to_owned(),
        }
    }

    /// The method that `value` names, or `UnsupportedMethod`.
    pub fn try_from(value: &str) -> (r: Result<Method, Error>)
        ensures
            r == match method_of(value@) {
                Some(m) => Ok::<Method, Error>(m),
                None => Err::<Method, Error>(Error::UnsupportedMethod),
            },
    {
        if same_text(value, "GET") {
            Ok(Method::Get)
        } else if same_text(value, "POST") {
            Ok(Method::Post)
        } else {
            Err(Error::UnsupportedMethod)
        }
    }
}

/// A request.
#[derive(Debug)]
pub struct Request {
    /// Its method.
    pub method: Method,
    /// The resource it names.
    pub uri: String,
    /// Its headers.
    pub headers: Headers,
    /// Its body, where it has one.
    pub body: Option<String>,
}

/// A request as text.
pub struct RequestView {
    pub method: Method,
    pub uri: Seq<char>,
    pub headers: Map<Seq<char>, Seq<char>>,
    pub body: Option<Seq<char>>,
}

impl View for Request {
    type V = RequestView;

    open spec fn view(&self) -> RequestView {
        RequestView {
            method: self.method,
            uri: self.uri@,
            headers: self.headers@,
            body: match self.body {
                Some(body) => Some(body@),
                None => None,
            },
        }
    }
}

/// The header lines of `entries`, each with its line break.
pub open spec fn block_text(entries: Seq<(Seq<char>, Seq<char>)>) -> Seq<char>
    decreases entries.len(),
{
    if entries.len() == 0 {
        Seq::empty()
    } else {
        entries[0].0 + ": "@ + entries[0].1 + "\r\n"@ + block_text(entries.drop_first())
    }
}

/// A request on the wire: request line, header lines, a blank line, and the
/// body, where there is one, as it stands.
pub open spec fn request_text(
    method: Method,
    uri: Seq<char>,
    entries: Seq<(Seq<char>, Seq<char>)>,
    body: Option<Seq<char>>,
) -> Seq<char> {
    method_text(method) + " "@ + uri + " HTTP/1.1\r\n"@ + block_text(entries) + "\r\n"@ + match body {
        Some(body) => body,
        None => Seq::empty(),
    }
}

impl Request {
    /// The request as it goes over the wire.
    pub fn to_string(&self) -> (r: String)
        ensures
            r@ == request_text(self.method, self.uri@, self.headers.entries(), self@.body),
    {
        let ghost entries = self.headers.entries();
        let mut r = self.method.to_string();
        r.append(" ");
        r.append(self.uri.as_str());
        r.append(" HTTP/1.1\r\n");
        let ghost start = r@;
        let mut i: usize = 0;
        assert(entries.skip(0) =~= entries);
        while i < self.headers.len()
            invariant
                i <= entries.len(),
                entries == self.headers.entries(),
                r@ + block_text(entries.skip(i as int)) == start + block_text(entries),
            decreases entries.len() - i,
        {
            proof {
                assert(entries.skip(i as int).drop_first() =~= entries.skip(i as int + 1));
                assert(entries.skip(i as int)[0] == entries[i as int]);
            }
            let ghost before = r@;
            let (key, value) = self.headers.entry(i);
            r.append(key.as_str());
            r.append(": ");
            r.append(value.as_str());
            r.append("\r\n");
            i += 1;
            assert(r@ + block_text(entries.skip(i as int)) =~= before + block_text(
                entries.skip(i as int - 1),
            ));
        }
        assert(block_text(entries.skip(i as int)) =~= Seq::<char>::empty());
        assert(r@ =~= start + block_text(entries));
        r.append("\r\n");
        match &self.body {
            Some(body) => {
                r.append(body.as_str());
            },
            None => {
                assert(r@ + Seq::<char>::empty() =~= r@);
            },
        }
        r
    }
}

/// Method and URI of a request line: its first two tokens. What follows them
/// on the line does not count.
pub open spec fn request_line(line: Seq<char>) -> Result<(Method, Seq<char>), Error> {
    match first_token(line) {
        None => Err(Error::MalformedRequestLine),
        Some(name) => match method_of(name) {
            None => Err(Error::UnsupportedMethod),
            Some(method) => match first_token(after_first_token(line)) {
                None => Err(Error::MalformedRequestLine),
                Some(uri) => Ok((method, uri)),
            },
        },
    }
}

/// The request that the byte stream `input` holds: a request line, a header
/// block, and a body where `Content-Length` announces one.
pub open spec fn parse_request_spec(input: Seq<u8>) -> Result<RequestView, Error> {
    match first_line(input) {
        None => Err(Error::ConnectionError),
        Some(line) => match request_line(line) {
            Err(e) => Err(e),
            Ok((method, uri)) => match header_block(after_line(input), Map::empty()) {
                Err(e) => Err(e),
                Ok((headers, rest)) => match body_of(headers, rest) {
                    Err(e) => Err(e),
                    Ok(body) => Ok(RequestView { method, uri, headers, body }),
                },
            },
        },
    }
}

/// Reads a request from the byte stream `input`. The headers that were read
/// can stand on the wire again.
pub fn parse_request(input: &[u8]) -> (r: Result<Request, Error>)
    ensures
        match r {
            Ok(request) => parse_request_spec(input@) == Ok::<RequestView, Error>(request@)
                && request.headers.wf() && wire_safe(request.headers.entries()),
            Err(e) => parse_request_spec(input@) == Err::<RequestView, Error>(e),
        },
{
    assert(input@.skip(0) =~= input@);
    let end = line_end(input, 0);
    let line = match decode_strict(slice_subrange(input, 0, end)) {
        Some(line) => line,
        None => {
            return Err(Error::ConnectionError);
        },
    };
    let chars = chars_of(line);
    assert(chars@.skip(0) =~= chars@);
    let (a, b) = match token_bounds(chars.as_slice(), 0) {
        Some(bounds) => bounds,
        None => {
            return Err(Error::MalformedRequestLine);
        },
    };
    let method = match Method::try_from(line.substring_char(a, b)) {
        Ok(method) => method,
        Err(e) => {
            return Err(e);
        },
    };
    let (c, d) = match token_bounds(chars.as_slice(), b) {
        Some(bounds) => bounds,
        None => {
            return Err(Error::MalformedRequestLine);
        },
    };
    let uri = line.substring_char(c, d).to_owned();
    let (headers, next) = match read_headers(input, end) {
        Ok(block) => block,
        Err(e) => {
            return Err(e);
        },
    };
    let body = match read_body(&headers, input, next) {
        Ok(body) => body,
        Err(e) => {
            return Err(e);
        },
    };
    Ok(Request { method, uri, headers, body })
}

} // verus!
