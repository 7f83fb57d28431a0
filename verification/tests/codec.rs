use chat_lib::error::{Error, ErrorKind};
use chat_lib::request::{parse_request, Method};
use chat_lib::response::{parse_response, Response, Status};
use chat_lib::text::{chars_of, format_unsigned, parse_unsigned, same_text, whitespace};
use chat_lib::framing::frame_end;

fn request_error(input: &[u8]) -> Error {
    match parse_request(input) {
        Ok(request) => panic!("parsed as {:?}", request),
        Err(e) => e,
    }
}

fn response_error(input: &[u8]) -> Error {
    match parse_response(input) {
        Ok(response) => panic!("parsed as {:?}", response),
        Err(e) => e,
    }
}

#[test]
fn get_request_without_body() {
    let request = parse_request(b"GET /messages HTTP/1.1\r\nHost: localhost\r\n\r\n").unwrap();
    assert_eq!(request.method, Method::Get);
    assert_eq!(request.uri, "/messages");
    assert_eq!(request.headers.len(), 1);
    assert_eq!(request.headers.get("Host").unwrap(), "localhost");
    assert!(request.body.is_none());
}

#[test]
fn post_request_with_body() {
    let request =
        parse_request(b"POST /messages HTTP/1.1\r\nContent-Length: 5\r\n\r\nhello").unwrap();
    assert_eq!(request.method, Method::Post);
    assert_eq!(request.uri, "/messages");
    assert_eq!(request.body.as_deref(), Some("hello"));
}

#[test]
fn body_is_exactly_as_long_as_announced() {
    let request =
        parse_request(b"POST /messages HTTP/1.1\r\nContent-Length: 3\r\n\r\nhello").unwrap();
    assert_eq!(request.body.as_deref(), Some("hel"));
    let empty = parse_request(b"POST /messages HTTP/1.1\r\nContent-Length: 0\r\n\r\n").unwrap();
    assert_eq!(empty.body.as_deref(), Some(""));
}

#[test]
fn body_length_counts_bytes_not_characters() {
    let input = "POST /m HTTP/1.1\r\nContent-Length: 6\r\n\r\n\u{00e9}\u{00e9}\u{00e9}".as_bytes();
    let request = parse_request(input).unwrap();
    assert_eq!(request.body.as_deref(), Some("\u{00e9}\u{00e9}\u{00e9}"));
}

#[test]
fn body_that_is_no_utf8_is_repaired() {
    let mut input = b"POST /m HTTP/1.1\r\nContent-Length: 3\r\n\r\n".to_vec();
    input.extend_from_slice(&[b'a', 0xff, b'b']);
    let request = parse_request(&input).unwrap();
    assert_eq!(request.body.as_deref(), Some("a\u{fffd}b"));
}

#[test]
fn short_body_is_a_connection_error() {
    assert_eq!(
        request_error(b"POST /messages HTTP/1.1\r\nContent-Length: 6\r\n\r\nhello"),
        Error::ConnectionError
    );
}

#[test]
fn later_header_replaces_earlier_one() {
    let request = parse_request(b"GET / HTTP/1.1\r\nA: 1\r\nB: 2\r\nA: 3\r\n\r\n").unwrap();
    assert_eq!(request.headers.len(), 2);
    assert_eq!(request.headers.get("A").unwrap(), "3");
    assert_eq!(request.headers.get("B").unwrap(), "2");
}

#[test]
fn header_keys_are_case_sensitive() {
    let request =
        parse_request(b"POST / HTTP/1.1\r\ncontent-length: 2\r\n\r\nhi").unwrap();
    assert!(request.headers.get("Content-Length").is_none());
    assert_eq!(request.headers.get("content-length").unwrap(), "2");
    assert!(request.body.is_none());
}

#[test]
fn header_is_split_at_its_first_colon_and_trimmed() {
    let request =
        parse_request(b"GET / HTTP/1.1\r\n  Key \t:  a:b : c  \r\nEmpty:\r\n:\r\n\r\n").unwrap();
    assert_eq!(request.headers.get("Key").unwrap(), "a:b : c");
    assert_eq!(request.headers.get("Empty").unwrap(), "");
    assert_eq!(request.headers.get("").unwrap(), "");
}

#[test]
fn unicode_whitespace_is_trimmed() {
    let input = "GET\u{2003}/x\u{00a0}HTTP/1.1\r\nK:\u{00a0}v\u{3000}\r\n\r\n".as_bytes();
    let request = parse_request(input).unwrap();
    assert_eq!(request.uri, "/x");
    assert_eq!(request.headers.get("K").unwrap(), "v");
}

#[test]
fn tokens_behind_the_uri_are_dropped() {
    let request = parse_request(b"GET /a b c d\r\n\r\n").unwrap();
    assert_eq!(request.uri, "/a");
    let bare = parse_request(b"GET /a\n\n").unwrap();
    assert_eq!(bare.uri, "/a");
}

#[test]
fn end_of_stream_ends_the_header_block() {
    let request = parse_request(b"GET /messages HTTP/1.1\r\nHost: localhost\r\n").unwrap();
    assert_eq!(request.headers.get("Host").unwrap(), "localhost");
    let unterminated = parse_request(b"GET /messages HTTP/1.1\r\nHost: localhost").unwrap();
    assert_eq!(unterminated.headers.get("Host").unwrap(), "localhost");
    let bare = parse_request(b"GET /messages").unwrap();
    assert_eq!(bare.headers.len(), 0);
}

#[test]
fn unsupported_method_is_refused() {
    assert_eq!(request_error(b"PUT /messages HTTP/1.1\r\n\r\n"), Error::UnsupportedMethod);
    assert_eq!(request_error(b"get /messages HTTP/1.1\r\n\r\n"), Error::UnsupportedMethod);
    assert_eq!(request_error(b"GETS /messages HTTP/1.1\r\n\r\n"), Error::UnsupportedMethod);
    assert_eq!(request_error(b"DELETE\r\n\r\n"), Error::UnsupportedMethod);
}

#[test]
fn request_line_without_method_or_uri_is_malformed() {
    assert_eq!(request_error(b""), Error::MalformedRequestLine);
    assert_eq!(request_error(b"\r\n"), Error::MalformedRequestLine);
    assert_eq!(request_error(b"   \r\nGET / HTTP/1.1\r\n\r\n"), Error::MalformedRequestLine);
    assert_eq!(request_error(b"GET\r\n\r\n"), Error::MalformedRequestLine);
    assert_eq!(request_error(b"POST  \r\n\r\n"), Error::MalformedRequestLine);
}

#[test]
fn header_without_colon_is_malformed() {
    assert_eq!(request_error(b"GET / HTTP/1.1\r\nno colon here\r\n\r\n"), Error::MalformedHeader);
    assert_eq!(response_error(b"HTTP/1.1 200 OK\r\nbroken\r\n\r\n"), Error::MalformedHeader);
}

#[test]
fn content_length_must_be_an_unsigned_number() {
    for value in ["abc", "-1", "", "1.5", "0x10", "+", "1 2", "99999999999999999999999999"] {
        let input = format!("POST / HTTP/1.1\r\nContent-Length: {}\r\n\r\nbody", value);
        assert_eq!(request_error(input.as_bytes()), Error::InvalidContentLength, "{:?}", value);
    }
    for value in ["4", "+4", "004", "+0004"] {
        let input = format!("POST / HTTP/1.1\r\nContent-Length: {}\r\n\r\nbody", value);
        let request = parse_request(input.as_bytes()).unwrap();
        assert_eq!(request.body.as_deref(), Some("body"), "{:?}", value);
    }
}

#[test]
fn line_that_is_no_utf8_is_a_connection_error() {
    assert_eq!(request_error(b"GET /\xff HTTP/1.1\r\n\r\n"), Error::ConnectionError);
    assert_eq!(request_error(b"GET / HTTP/1.1\r\nK: \xc3\r\n\r\n"), Error::ConnectionError);
    assert_eq!(response_error(b"HTTP/1.1 200 \xff\r\n\r\n"), Error::ConnectionError);
}

#[test]
fn errors_come_in_the_order_of_the_stream() {
    assert_eq!(request_error(b"PUT\r\nbroken\r\n\r\n"), Error::UnsupportedMethod);
    assert_eq!(
        request_error(b"GET / HTTP/1.1\r\nbroken\r\nContent-Length: x\r\n\r\n"),
        Error::MalformedHeader
    );
    assert_eq!(
        request_error(b"GET / HTTP/1.1\r\nContent-Length: x\r\nbroken\r\n\r\n"),
        Error::MalformedHeader
    );
}

#[test]
fn method_from_token() {
    assert_eq!(Method::try_from("GET"), Ok(Method::Get));
    assert_eq!(Method::try_from("POST"), Ok(Method::Post));
    assert_eq!(Method::try_from("PATCH"), Err(Error::UnsupportedMethod));
    assert_eq!(Method::try_from(""), Err(Error::UnsupportedMethod));
    assert_eq!(Method::Get.to_string(), "GET");
    assert_eq!(Method::Post.to_string(), "POST");
}

#[test]
fn status_lines() {
    assert_eq!(Status::Success.to_string(), "HTTP/1.1 200 OK");
    assert_eq!(Status::NotFound.to_string(), "HTTP/1.1 404 NOT FOUND");
    assert_eq!(Status::BadRequest.to_string(), "HTTP/1.1 400 BAD REQUEST");
}

#[test]
fn response_text_on_the_wire() {
    let response = Response::new(Status::Success, "text/plain", "hello".to_string());
    assert_eq!(
        response.to_string(),
        "HTTP/1.1 200 OK\r\nContent-Type: text/plain\r\nContent-Length: 5\r\n\r\nhello"
    );
    assert_eq!(response.headers.get("Content-Type").unwrap(), "text/plain");
    assert_eq!(response.headers.get("Content-Length").unwrap(), "5");
    let empty = Response::new(Status::NotFound, "text/plain", String::new());
    assert_eq!(
        empty.to_string(),
        "HTTP/1.1 404 NOT FOUND\r\nContent-Type: text/plain\r\nContent-Length: 0\r\n\r\n"
    );
}

#[test]
fn response_without_headers_on_the_wire() {
    let mut response = Response::new(Status::BadRequest, "text/plain", "x".to_string());
    response.headers = chat_lib::headers::Headers::new();
    assert_eq!(response.to_string(), "HTTP/1.1 400 BAD REQUEST\r\n\r\n\r\nx");
}

#[test]
fn response_is_read_back_as_it_was_written() {
    let bodies = [
        "",
        "hello",
        "[{\"user\":\"alice\",\"message\":\"hi\"}]",
        "line\r\nbreaks\n\nand: colons\r\n\r\n",
        "gr\u{00fc}\u{00df}e \u{4f60}\u{597d} \u{1f600}",
        "  spaces around  ",
    ];
    for status in [Status::Success, Status::NotFound, Status::BadRequest] {
        for content_type in ["text/plain", "application/json", "a b; c=d"] {
            for body in bodies {
                let response = Response::new(status, content_type, body.to_string());
                let read = parse_response(response.to_string().as_bytes()).unwrap();
                assert_eq!(read.status, status);
                assert_eq!(read.body, body);
                assert_eq!(read.headers.len(), 2);
                assert_eq!(read.headers.get("Content-Type").unwrap(), content_type);
                assert_eq!(
                    read.headers.get("Content-Length").unwrap(),
                    &body.len().to_string()
                );
            }
        }
    }
}

#[test]
fn response_with_more_headers_is_read_back() {
    let mut response = Response::new(Status::Success, "text/plain", "body".to_string());
    response.headers.insert("X-Empty".to_string(), String::new());
    response.headers.insert("".to_string(), "no key".to_string());
    response.headers.insert("X-\u{00e9}".to_string(), "a\rb: c".to_string());
    let read = parse_response(response.to_string().as_bytes()).unwrap();
    assert_eq!(read.headers.len(), 5);
    assert_eq!(read.headers.get("X-Empty").unwrap(), "");
    assert_eq!(read.headers.get("").unwrap(), "no key");
    assert_eq!(read.headers.get("X-\u{00e9}").unwrap(), "a\rb: c");
    assert_eq!(read.body, "body");
    assert_eq!(read.to_string(), response.to_string());
}

#[test]
fn response_status_codes() {
    let ok = parse_response(b"HTTP/1.1 200 OK\r\nContent-Length: 0\r\n\r\n").unwrap();
    assert_eq!(ok.status, Status::Success);
    let missing = parse_response(b"HTTP/1.1 404 NOT FOUND\r\nContent-Length: 0\r\n\r\n").unwrap();
    assert_eq!(missing.status, Status::NotFound);
    let bad = parse_response(b"HTTP/1.1 400 BAD REQUEST\r\nContent-Length: 0\r\n\r\n").unwrap();
    assert_eq!(bad.status, Status::BadRequest);
    let plus = parse_response(b"HTTP/1.1 +0200\r\nContent-Length: 0\r\n\r\n").unwrap();
    assert_eq!(plus.status, Status::Success);
    let any_version = parse_response(b"whatever 404\nContent-Length: 1\n\nx").unwrap();
    assert_eq!(any_version.status, Status::NotFound);
    assert_eq!(any_version.body, "x");
}

#[test]
fn unknown_status_code_is_an_error() {
    for code in ["500", "201", "0", "-200", "200.0", "abc", "2OO", "99999999999999999999999"] {
        let input = format!("HTTP/1.1 {} X\r\nContent-Length: 0\r\n\r\n", code);
        assert_eq!(response_error(input.as_bytes()), Error::UnknownStatusCode, "{:?}", code);
    }
}

#[test]
fn status_line_without_code_is_malformed() {
    assert_eq!(response_error(b""), Error::MalformedStatusLine);
    assert_eq!(response_error(b"HTTP/1.1\r\nContent-Length: 0\r\n\r\n"), Error::MalformedStatusLine);
    assert_eq!(response_error(b"  \r\n"), Error::MalformedStatusLine);
}

#[test]
fn response_without_content_length_has_no_body() {
    assert_eq!(response_error(b"HTTP/1.1 200 OK\r\n\r\nhello"), Error::MissingBody);
    assert_eq!(
        response_error(b"HTTP/1.1 200 OK\r\nContent-Type: text/plain\r\n\r\n"),
        Error::MissingBody
    );
}

#[test]
fn response_with_bad_or_short_body() {
    assert_eq!(
        response_error(b"HTTP/1.1 200 OK\r\nContent-Length: five\r\n\r\nhello"),
        Error::InvalidContentLength
    );
    assert_eq!(
        response_error(b"HTTP/1.1 200 OK\r\nContent-Length: 10\r\n\r\nhello"),
        Error::ConnectionError
    );
}

#[test]
fn error_kinds() {
    assert_eq!(Error::ConnectionError.kind(), ErrorKind::Connection);
    assert_eq!(Error::InvalidMessage.kind(), ErrorKind::Application);
    for e in [
        Error::MalformedRequestLine,
        Error::UnsupportedMethod,
        Error::MalformedHeader,
        Error::InvalidContentLength,
        Error::MalformedStatusLine,
        Error::UnknownStatusCode,
        Error::MissingBody,
    ] {
        assert_eq!(e.kind(), ErrorKind::Protocol);
    }
}

#[test]
fn whitespace_is_what_std_calls_whitespace() {
    for code in 0..=0x10ffffu32 {
        if let Some(c) = char::from_u32(code) {
            assert_eq!(whitespace(c), c.is_whitespace(), "U+{:04X}", code);
        }
    }
}

#[test]
fn unsigned_numbers_are_what_std_parses() {
    let samples = [
        "", "0", "7", "42", "+42", "-42", "0042", "+", "++1", "4 2", " 42", "42 ", "4a", "a4",
        "18446744073709551615", "18446744073709551616", "000018446744073709551615",
        "99999999999999999999", "4294967295", "4294967296", "\u{0661}\u{0662}", "1_000", "1e3",
    ];
    for sample in samples {
        let chars: Vec<char> = sample.chars().collect();
        assert_eq!(parse_unsigned(&chars), sample.parse::<usize>().ok(), "{:?}", sample);
    }
    let chars: Vec<char> = "ab123cd".chars().collect();
    assert_eq!(parse_unsigned(&chars[2..5]), Some(123));
    assert_eq!(parse_unsigned(&chars[2..2]), None);
}

#[test]
fn unsigned_numbers_are_written_as_std_writes_them() {
    for n in [0usize, 1, 9, 10, 11, 99, 100, 101, 12345, 4294967295, usize::MAX - 1, usize::MAX] {
        assert_eq!(format_unsigned(n), n.to_string());
        let digits = chars_of(&format_unsigned(n));
        assert_eq!(parse_unsigned(&digits), Some(n));
    }
}

#[test]
fn texts_are_told_apart() {
    assert!(same_text("", ""));
    assert!(same_text("abc", "abc"));
    assert!(!same_text("abc", "abd"));
    assert!(!same_text("abc", "ab"));
    assert!(!same_text("e\u{0301}", "\u{00e9}"));
    assert_eq!(chars_of("a\u{00e9}\u{1f600}"), vec!['a', '\u{00e9}', '\u{1f600}']);
}

#[test]
fn frame_ends_where_the_message_ends() {
    let message = b"POST /messages HTTP/1.1\r\nHost: h\r\nContent-Length: 5\r\n\r\nhello";
    for cut in 0..message.len() {
        assert_eq!(frame_end(&message[..cut]), None, "cut at {}", cut);
    }
    assert_eq!(frame_end(message), Some(message.len()));
    let mut more = message.to_vec();
    more.extend_from_slice(b"GET / HTTP/1.1\r\n\r\n");
    assert_eq!(frame_end(&more), Some(message.len()));
}

#[test]
fn frame_without_announced_body_ends_with_the_blank_line() {
    let message = b"GET /messages HTTP/1.1\r\nHost: localhost\r\n\r\n";
    for cut in 0..message.len() {
        assert_eq!(frame_end(&message[..cut]), None, "cut at {}", cut);
    }
    assert_eq!(frame_end(message), Some(message.len()));
    assert_eq!(frame_end(b"GET /\n\n"), Some(7));
    assert_eq!(frame_end(b"GET /\n\nrest"), Some(7));
    assert_eq!(frame_end(b"GET /\nbroken\nContent-Length: 9\n\nrest"), Some(32));
    assert_eq!(frame_end(b"GET /\nContent-Length: x\n\nrest"), Some(25));
    assert_eq!(frame_end(b"\n\n"), Some(2));
    assert_eq!(frame_end(b""), None);
}

#[test]
fn unfinished_request_line_is_never_a_frame() {
    let mut input = Vec::new();
    for byte in b"GET /messages HTTP/1.1 and the line goes on and on".iter().cycle().take(10_000) {
        input.push(*byte);
        if input.len() % 997 == 0 {
            assert_eq!(frame_end(&input), None);
        }
    }
    assert_eq!(frame_end(&input), None);
}

#[test]
fn what_was_read_can_be_written_and_read_again() {
    let input = "POST /messages?x=1 HTTP/1.1\r\n Host :\tlocal host \r\nX-\u{00fc}: a\rb: c\r\n:\r\nContent-Length: +007\r\n\r\ngr\u{00fc}\u{00df}e".as_bytes();
    let first = parse_request(input).unwrap();
    let text = first.to_string();
    assert_eq!(
        text,
        "POST /messages?x=1 HTTP/1.1\r\nHost: local host\r\nX-\u{00fc}: a\rb: c\r\n: \r\nContent-Length: +007\r\n\r\ngr\u{00fc}\u{00df}e"
    );
    let second = parse_request(text.as_bytes()).unwrap();
    assert_eq!(second.method, first.method);
    assert_eq!(second.uri, first.uri);
    assert_eq!(second.body, first.body);
    assert_eq!(second.headers.len(), first.headers.len());
    for key in ["Host", "X-\u{00fc}", "", "Content-Length"] {
        assert_eq!(second.headers.get(key), first.headers.get(key));
    }
    assert_eq!(second.to_string(), text);

    let response = parse_response(b"HTTP/2 404 whatever\nA:1\nContent-Length:2\n\nhi").unwrap();
    assert_eq!(
        response.to_string(),
        "HTTP/1.1 404 NOT FOUND\r\nA: 1\r\nContent-Length: 2\r\n\r\nhi"
    );
    let again = parse_response(response.to_string().as_bytes()).unwrap();
    assert_eq!(again.to_string(), response.to_string());
}
