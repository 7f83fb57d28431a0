use chat_lib::args::{Args, IP_ADDR, PORT};
use chat_lib::client::{
    messages_request, post_request, read_messages, Action, App, Key, CHANNEL_CAPACITY,
    POLL_INTERVAL_MS,
};
use chat_lib::error::Error;
use chat_lib::handle_connection;
use chat_lib::messages::{Message, MessageStore};
use chat_lib::request::{parse_request, Method};
use chat_lib::framing::frame_end;

#[test]
fn request_for_the_messages_on_the_wire() {
    let request = messages_request();
    assert_eq!(request.to_string(), "GET /messages HTTP/1.1\r\nHost: localhost\r\n\r\n");
    let read = parse_request(request.to_string().as_bytes()).unwrap();
    assert_eq!(read.method, Method::Get);
    assert_eq!(read.uri, "/messages");
    assert_eq!(read.headers.get("Host").unwrap(), "localhost");
    assert!(read.body.is_none());
    assert_eq!(frame_end(request.to_string().as_bytes()), Some(request.to_string().len()));
}

#[test]
fn request_that_posts_on_the_wire() {
    let request = post_request("alice", "hi");
    assert_eq!(
        request.to_string(),
        "POST /messages HTTP/1.1\r\nHost: localhost\r\nContent-Type: application/json\r\nContent-Length: 31\r\n\r\n{\"user\":\"alice\",\"message\":\"hi\"}"
    );
    let wide = post_request("z\u{00fc}rich", "gr\u{00fc}\u{00df}e \u{1f600}");
    let read = parse_request(wide.to_string().as_bytes()).unwrap();
    assert_eq!(read.method, Method::Post);
    assert_eq!(read.uri, "/messages");
    assert_eq!(read.headers.len(), 3);
    assert_eq!(read.headers.get("Content-Type").unwrap(), "application/json");
    assert_eq!(
        read.body.as_deref(),
        Some("{\"user\":\"z\u{00fc}rich\",\"message\":\"gr\u{00fc}\u{00df}e \u{1f600}\"}")
    );
    assert_eq!(frame_end(wide.to_string().as_bytes()), Some(wide.to_string().len()));
}

#[test]
fn posted_text_stands_between_the_quotes_as_it_is() {
    let request = post_request("a", "say \"hi\"");
    assert_eq!(request.body.as_deref(), Some("{\"user\":\"a\",\"message\":\"say \"hi\"\"}"));
    let mut store = MessageStore::new();
    assert_eq!(
        handle_connection(request.to_string().as_bytes(), &mut store),
        Err(Error::InvalidMessage)
    );
    assert_eq!(store.len(), 0);
}

#[test]
fn client_and_service_understand_each_other() {
    let mut store = MessageStore::new();
    let app = App::new("alice".to_string());
    for text in ["hi", "how are you?", ""] {
        let ack = handle_connection(app.submit(text).to_string().as_bytes(), &mut store).unwrap();
        assert!(ack.starts_with("HTTP/1.1 200 OK\r\n"));
        assert_eq!(frame_end(ack.as_bytes()), Some(ack.len()));
    }
    let listing = handle_connection(messages_request().to_string().as_bytes(), &mut store).unwrap();
    assert_eq!(frame_end(listing.as_bytes()), Some(listing.len()));
    let messages = read_messages(listing.as_bytes()).unwrap();
    assert_eq!(messages.len(), 3);
    assert_eq!(messages[0].user, "alice");
    assert_eq!(messages[0].message, "hi");
    assert_eq!(messages[1].message, "how are you?");
    assert_eq!(messages[2].message, "");
}

#[test]
fn messages_are_read_from_any_status() {
    let input = b"HTTP/1.1 404 NOT FOUND\r\nContent-Length: 28\r\n\r\n[{\"user\":\"a\",\"message\":\"1\"}]";
    let messages = read_messages(input).unwrap();
    assert_eq!(messages.len(), 1);
    assert_eq!(messages[0].user, "a");
}

#[test]
fn messages_are_not_read_from_other_bodies() {
    assert_eq!(
        read_messages(b"HTTP/1.1 404 NOT FOUND\r\nContent-Length: 9\r\n\r\nNot Found").err(),
        Some(Error::InvalidMessage)
    );
    assert_eq!(
        read_messages(b"HTTP/1.1 200 OK\r\nContent-Length: 15\r\n\r\n{\"status\":\"ok\"}").err(),
        Some(Error::InvalidMessage)
    );
    assert_eq!(read_messages(b"HTTP/1.1 200 OK\r\n\r\n[]").err(), Some(Error::MissingBody));
    assert_eq!(
        read_messages(b"HTTP/1.1 500 OOPS\r\nContent-Length: 2\r\n\r\n[]").err(),
        Some(Error::UnknownStatusCode)
    );
}

#[test]
fn keys_and_what_they_do() {
    let app = App::new("alice".to_string());
    assert_eq!(app.on_key(Key::Enter, false), Action::Submit);
    assert_eq!(app.on_key(Key::Enter, true), Action::Submit);
    assert_eq!(app.on_key(Key::Char('c'), true), Action::Quit);
    assert_eq!(app.on_key(Key::Char('c'), false), Action::Edit);
    assert_eq!(app.on_key(Key::Char('C'), true), Action::Edit);
    assert_eq!(app.on_key(Key::Char('d'), true), Action::Edit);
    assert_eq!(app.on_key(Key::Char('x'), false), Action::Edit);
    assert_eq!(app.on_key(Key::Other, false), Action::Edit);
    assert_eq!(app.on_key(Key::Other, true), Action::Edit);
}

#[test]
fn batches_replace_the_messages_shown() {
    let mut app = App::new("alice".to_string());
    assert_eq!(app.user, "alice");
    assert!(app.messages.is_empty());
    assert!(app.lines().is_empty());
    app.receive(Some(vec![
        Message { user: "a".to_string(), message: "1".to_string() },
        Message { user: "b".to_string(), message: "2: two".to_string() },
    ]));
    assert_eq!(app.lines(), vec!["a: 1".to_string(), "b: 2: two".to_string()]);
    app.receive(None);
    assert_eq!(app.lines().len(), 2);
    app.receive(Some(vec![Message { user: "c".to_string(), message: String::new() }]));
    assert_eq!(app.lines(), vec!["c: ".to_string()]);
    app.receive(Some(Vec::new()));
    assert!(app.lines().is_empty());
    assert_eq!(app.user, "alice");
}

#[test]
fn socket_address_with_and_without_overrides() {
    assert_eq!(IP_ADDR, "127.0.0.1");
    assert_eq!(PORT, "8080");
    assert_eq!(Args { ip: None, port: None }.socket_addr(), "127.0.0.1:8080");
    assert_eq!(
        Args { ip: Some("10.0.0.7".to_string()), port: None }.socket_addr(),
        "10.0.0.7:8080"
    );
    assert_eq!(
        Args { ip: None, port: Some("9000".to_string()) }.socket_addr(),
        "127.0.0.1:9000"
    );
    assert_eq!(
        Args { ip: Some("::1".to_string()), port: Some("1".to_string()) }.socket_addr(),
        "::1:1"
    );
}

#[test]
fn polling_constants() {
    assert_eq!(POLL_INTERVAL_MS, 100);
    assert_eq!(CHANNEL_CAPACITY, 100);
}
