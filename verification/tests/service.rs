use chat_lib::client::read_messages;
use chat_lib::error::Error;
use chat_lib::handle_connection;
use chat_lib::headers::Headers;
use chat_lib::json::Json;
use chat_lib::messages::{
    decode_message, decode_messages, encode_message, encode_messages, message_from_document,
    message_from_members, messages_from_document, Message, MessageStore,
};
use chat_lib::request::{parse_request, Method, Request};
use chat_lib::response::{get_response, Status};

fn post(body: &str) -> Vec<u8> {
    format!(
        "POST /messages HTTP/1.1\r\nHost: localhost\r\nContent-Type: application/json\r\nContent-Length: {}\r\n\r\n{}",
        body.len(),
        body
    )
    .into_bytes()
}

fn body_of(response_text: &str) -> &str {
    let at = response_text.find("\r\n\r\n").unwrap();
    &response_text[at + 4..]
}

const GET: &[u8] = b"GET /messages HTTP/1.1\r\nHost: localhost\r\n\r\n";

#[test]
fn post_then_get_yields_the_message() {
    let mut store = MessageStore::new();
    let ack = handle_connection(&post("{\"user\":\"alice\",\"message\":\"hi\"}"), &mut store).unwrap();
    assert_eq!(
        ack,
        "HTTP/1.1 200 OK\r\nContent-Type: application/json\r\nContent-Length: 15\r\n\r\n{\"status\":\"ok\"}"
    );
    let listing = handle_connection(GET, &mut store).unwrap();
    assert_eq!(
        listing,
        "HTTP/1.1 200 OK\r\nContent-Type: application/json\r\nContent-Length: 33\r\n\r\n[{\"user\":\"alice\",\"message\":\"hi\"}]"
    );
    assert_eq!(body_of(&listing), "[{\"user\":\"alice\",\"message\":\"hi\"}]");
}

#[test]
fn post_body_is_31_bytes_long_and_fails_when_cut_at_29() {
    let body = "{\"user\":\"alice\",\"message\":\"hi\"}";
    assert_eq!(body.len(), 31);
    let mut store = MessageStore::new();
    let cut = format!("POST /messages HTTP/1.1\r\nContent-Length: 29\r\n\r\n{}", body);
    assert_eq!(handle_connection(cut.as_bytes(), &mut store), Err(Error::InvalidMessage));
    assert_eq!(store.len(), 0);
}

#[test]
fn two_posts_then_get_keep_their_order() {
    let mut store = MessageStore::new();
    handle_connection(&post("{\"user\":\"a\",\"message\":\"1\"}"), &mut store).unwrap();
    handle_connection(&post("{\"user\":\"b\",\"message\":\"2\"}"), &mut store).unwrap();
    let listing = handle_connection(GET, &mut store).unwrap();
    assert_eq!(
        body_of(&listing),
        "[{\"user\":\"a\",\"message\":\"1\"},{\"user\":\"b\",\"message\":\"2\"}]"
    );
}

#[test]
fn get_on_an_empty_store_yields_an_empty_array() {
    let mut store = MessageStore::new();
    let listing = handle_connection(GET, &mut store).unwrap();
    assert_eq!(
        listing,
        "HTTP/1.1 200 OK\r\nContent-Type: application/json\r\nContent-Length: 2\r\n\r\n[]"
    );
    assert_eq!(read_messages(listing.as_bytes()).unwrap().len(), 0);
}

#[test]
fn n_posts_then_get_yield_n_messages_in_order() {
    for n in [0usize, 1, 2, 7, 40] {
        let mut store = MessageStore::new();
        for i in 0..n {
            let body = format!("{{\"user\":\"user{}\",\"message\":\"text {}\"}}", i % 3, i);
            let ack = handle_connection(&post(&body), &mut store).unwrap();
            assert!(ack.starts_with("HTTP/1.1 200 OK\r\n"));
        }
        assert_eq!(store.len(), n);
        let listing = handle_connection(GET, &mut store).unwrap();
        let messages = read_messages(listing.as_bytes()).unwrap();
        assert_eq!(messages.len(), n);
        for (i, m) in messages.iter().enumerate() {
            assert_eq!(m.user, format!("user{}", i % 3));
            assert_eq!(m.message, format!("text {}", i));
        }
        assert_eq!(store.len(), n);
    }
}

#[test]
fn store_grows_by_one_for_each_post_answered_ok() {
    let mut store = MessageStore::new();
    let inputs: Vec<Vec<u8>> = vec![
        post("{\"user\":\"a\",\"message\":\"1\"}"),
        post("not json"),
        GET.to_vec(),
        b"POST /messages HTTP/1.1\r\n\r\n".to_vec(),
        post("{\"user\":\"b\",\"message\":\"2\"}"),
        b"PUT /messages HTTP/1.1\r\n\r\n".to_vec(),
        b"POST /other HTTP/1.1\r\nContent-Length: 2\r\n\r\n{}".to_vec(),
        post("{\"user\":\"a\",\"message\":\"1\"}"),
        post("{\"user\":\"c\"}"),
    ];
    let mut accepted = 0;
    for input in &inputs {
        let before = store.len();
        let posted = input.starts_with(b"POST ");
        match handle_connection(input, &mut store) {
            Ok(text) if posted && text.starts_with("HTTP/1.1 200 OK\r\n") => {
                accepted += 1;
                assert_eq!(store.len(), before + 1);
            }
            _ => assert_eq!(store.len(), before),
        }
    }
    assert_eq!(accepted, 3);
    assert_eq!(store.len(), 3);
    let copy = store.snapshot();
    assert_eq!(copy[0].message, "1");
    assert_eq!(copy[1].message, "2");
    assert_eq!(copy[2].message, "1");
}

#[test]
fn unsupported_method_leaves_the_store_alone() {
    let mut store = MessageStore::new();
    store.append(Message { user: "a".to_string(), message: "1".to_string() });
    let input = b"DELETE /messages HTTP/1.1\r\nContent-Length: 26\r\n\r\n{\"user\":\"a\",\"message\":\"1\"}";
    assert!(matches!(parse_request(input), Err(Error::UnsupportedMethod)));
    assert_eq!(handle_connection(input, &mut store), Err(Error::UnsupportedMethod));
    assert_eq!(store.len(), 1);
}

#[test]
fn post_without_body_is_a_bad_request() {
    let mut store = MessageStore::new();
    let text = handle_connection(b"POST /messages HTTP/1.1\r\nHost: localhost\r\n\r\n", &mut store)
        .unwrap();
    assert_eq!(
        text,
        "HTTP/1.1 400 BAD REQUEST\r\nContent-Type: text/plain\r\nContent-Length: 15\r\n\r\nInvalid Message"
    );
    assert_eq!(store.len(), 0);
    let request = Request {
        method: Method::Post,
        uri: "/messages".to_string(),
        headers: Headers::new(),
        body: None,
    };
    let response = get_response(request, &mut store).unwrap();
    assert_eq!(response.status, Status::BadRequest);
    assert_eq!(response.body, "Invalid Message");
    assert_eq!(response.headers.get("Content-Type").unwrap(), "text/plain");
    assert_eq!(store.len(), 0);
}

#[test]
fn unknown_route_is_not_found() {
    let mut store = MessageStore::new();
    let text = handle_connection(b"GET /unknown HTTP/1.1\r\n\r\n", &mut store).unwrap();
    assert_eq!(
        text,
        "HTTP/1.1 404 NOT FOUND\r\nContent-Type: text/plain\r\nContent-Length: 9\r\n\r\nNot Found"
    );
    for (method, uri, body) in [
        (Method::Get, "/", None),
        (Method::Get, "/messages/", None),
        (Method::Get, "/Messages", None),
        (Method::Post, "/unknown", Some("{\"user\":\"a\",\"message\":\"1\"}")),
        (Method::Post, "messages", None),
    ] {
        let request = Request {
            method,
            uri: uri.to_string(),
            headers: Headers::new(),
            body: body.map(str::to_string),
        };
        let response = get_response(request, &mut store).unwrap();
        assert_eq!(response.status, Status::NotFound);
        assert_eq!(response.body, "Not Found");
        assert_eq!(response.headers.get("Content-Type").unwrap(), "text/plain");
        assert_eq!(response.headers.get("Content-Length").unwrap(), "9");
    }
    assert_eq!(store.len(), 0);
}

#[test]
fn post_of_what_is_no_message_fails_and_stores_nothing() {
    let mut store = MessageStore::new();
    for body in [
        "",
        "not json",
        "{}",
        "[]",
        "null",
        "\"text\"",
        "{\"user\":\"a\"}",
        "{\"message\":\"1\"}",
        "{\"user\":1,\"message\":\"1\"}",
        "{\"user\":\"a\",\"message\":null}",
        "{\"user\":\"a\",\"message\":[\"1\"]}",
        "{\"user\":\"a\",\"message\":\"1\"} trailing",
        "{\"user\":\"a\",\"message\":\"1\"",
        "[{\"user\":\"a\",\"message\":\"1\"}]",
        "{\"User\":\"a\",\"Message\":\"1\"}",
    ] {
        assert_eq!(handle_connection(&post(body), &mut store), Err(Error::InvalidMessage), "{:?}", body);
    }
    assert_eq!(store.len(), 0);
}

#[test]
fn message_is_decoded_from_its_object() {
    let m = decode_message("  { \"message\" : \"hi \\\"there\\\"\\n\", \"extra\": [1, {\"a\": null}], \"user\" : \"al\\u00e9\" }  ").unwrap();
    assert_eq!(m.user, "al\u{00e9}");
    assert_eq!(m.message, "hi \"there\"\n");
}

#[test]
fn message_needs_user_and_message_as_strings() {
    let name = |s: &str| s.to_string();
    let full = vec![
        (name("extra"), None),
        (name("message"), Some(name("hi"))),
        (name("user"), Some(name("alice"))),
    ];
    let m = message_from_members(&full).unwrap();
    assert_eq!(m.user, "alice");
    assert_eq!(m.message, "hi");
    assert!(message_from_members(&vec![(name("user"), Some(name("alice")))]).is_none());
    assert!(message_from_members(&vec![(name("message"), Some(name("hi")))]).is_none());
    assert!(message_from_members(&vec![
        (name("message"), None),
        (name("user"), Some(name("alice")))
    ])
    .is_none());
    assert!(message_from_members(&vec![]).is_none());
    assert_eq!(message_from_document(&Json::Object(full.clone())).unwrap().user, "alice");
    assert!(message_from_document(&Json::Object(vec![])).is_none());
    assert!(message_from_document(&Json::Array(vec![Some(full.clone())])).is_none());
    assert!(message_from_document(&Json::Other).is_none());
    let partial = vec![(name("user"), Some(name("bob")))];
    let whole = Json::Array(vec![Some(full.clone()), Some(full.clone())]);
    assert_eq!(messages_from_document(&whole).unwrap().len(), 2);
    assert_eq!(messages_from_document(&Json::Array(vec![])).unwrap().len(), 0);
    assert!(messages_from_document(&Json::Array(vec![Some(full.clone()), Some(partial)])).is_none());
    assert!(messages_from_document(&Json::Array(vec![Some(full.clone()), None])).is_none());
    assert!(messages_from_document(&Json::Object(full)).is_none());
    assert!(messages_from_document(&Json::Other).is_none());
}

#[test]
fn messages_are_written_as_json() {
    let quoted = Message { user: "a\"b".to_string(), message: "x\\y\n\u{0001}\u{00e9}/".to_string() };
    assert_eq!(
        encode_message(&quoted),
        "{\"user\":\"a\\\"b\",\"message\":\"x\\\\y\\n\\u0001\u{00e9}/\"}"
    );
    assert_eq!(encode_messages(&[]), "[]");
    let plain = Message { user: "u".to_string(), message: "m".to_string() };
    assert_eq!(
        encode_messages(&[plain.clone(), quoted.clone(), plain.clone()]),
        format!(
            "[{0},{1},{0}]",
            "{\"user\":\"u\",\"message\":\"m\"}",
            "{\"user\":\"a\\\"b\",\"message\":\"x\\\\y\\n\\u0001\u{00e9}/\"}"
        )
    );
    let back = decode_messages(&encode_messages(&[plain, quoted])).unwrap();
    assert_eq!(back.len(), 2);
    assert_eq!(back[1].user, "a\"b");
    assert_eq!(back[1].message, "x\\y\n\u{0001}\u{00e9}/");
}

#[test]
fn message_arrays_are_decoded_whole_or_not_at_all() {
    assert_eq!(decode_messages("[]").unwrap().len(), 0);
    let two = decode_messages("[{\"user\":\"a\",\"message\":\"1\"}, {\"message\":\"2\",\"user\":\"b\"}]")
        .unwrap();
    assert_eq!(two.len(), 2);
    assert_eq!(two[0].user, "a");
    assert_eq!(two[1].user, "b");
    assert_eq!(two[1].message, "2");
    for text in ["", "{}", "[{\"user\":\"a\",\"message\":\"1\"},{\"user\":\"b\"}]", "[1]", "[[]]", "[] x"] {
        assert!(matches!(decode_messages(text), Err(Error::InvalidMessage)), "{:?}", text);
    }
}

#[test]
fn store_keeps_what_is_appended_in_order() {
    let mut store = MessageStore::new();
    assert_eq!(store.len(), 0);
    assert_eq!(encode_messages(&store.snapshot()), "[]");
    for i in 0..5 {
        store.append(Message { user: format!("u{}", i), message: format!("m{}", i) });
        assert_eq!(store.len(), i + 1);
    }
    let copy = store.snapshot();
    assert_eq!(copy.len(), 5);
    for (i, m) in copy.iter().enumerate() {
        assert_eq!(m.user, format!("u{}", i));
        assert_eq!(m.message, format!("m{}", i));
    }
    store.append(Message { user: "late".to_string(), message: "x".to_string() });
    assert_eq!(copy.len(), 5);
    assert_eq!(store.len(), 6);
    assert!(encode_messages(&store.snapshot())
        .ends_with(",{\"user\":\"late\",\"message\":\"x\"}]"));
}

#[test]
fn post_with_repaired_body_is_stored_as_repaired() {
    let mut store = MessageStore::new();
    let mut input = b"POST /messages HTTP/1.1\r\nContent-Length: 27\r\n\r\n{\"user\":\"a\",\"message\":\"".to_vec();
    input.extend_from_slice(&[0xff, b'1', b'"', b'}']);
    handle_connection(&input, &mut store).unwrap();
    assert_eq!(store.snapshot()[0].message, "\u{fffd}1");
}
