//! The client's side: the two requests it sends, how it reads the messages
//! out of a response, and what it does when a key is pressed.

use crate::error::Error;
use crate::headers::{entries_map, lemma_entries_insert_fresh, Headers};
use crate::messages::{decode_messages, messages_of_json, views, Message, MessageView};
use crate::request::{parse_request_spec, request_text, Method, Request, RequestView};
use crate::response::{parse_response, parse_response_spec};
use crate::round_trip::lemma_request_round_trip;
use crate::text::{decimal_digits, format_unsigned, is_digit, is_token, lemma_decimal_digits};
use crate::wire::{wire_key, wire_value};
use vstd::prelude::*;
use vstd::utf8::encode_utf8;

verus! {

/// How long the client waits between two requests for the messages, in
/// milliseconds.
pub const POLL_INTERVAL_MS: u64 = 100;

/// How many batches of messages may wait to be shown.
pub const CHANNEL_CAPACITY: usize = 100;

/// The headers of the request for the messages.
pub open spec fn messages_request_entries() -> Seq<(Seq<char>, Seq<char>)> {
    seq![("Host"@, "localhost"@)]
}

/// The body that posts `text` in the name of `user`: both stand between the
/// quotes as they are.
pub open spec fn post_body(user: Seq<char>, text: Seq<char>) -> Seq<char> {
    "{\"user\":\""@ + user + "\",\"message\":\""@ + text + "\"}"@
}

/// The headers of a request that posts `body`.
pub open spec fn post_request_entries(body: Seq<char>) -> Seq<(Seq<char>, Seq<char>)> {
    seq![
        ("Host"@, "localhost"@),
        ("Content-Type"@, "application/json"@),
        ("Content-Length"@, decimal_digits(encode_utf8(body).len())),
    ]
}

/// The request for the messages: `GET /messages`, without a body.
pub fn messages_request() -> (r: Request)
    ensures
        r.method == Method::Get,
        r.uri@ == "/messages"@,
        r.headers.entries() == messages_request_entries(),
        r.headers.wf(),
        r.body is None,
{
    let mut headers = Headers::new();
    headers.insert("Host".to_owned(), "localhost".to_owned());
    proof {
        lemma_entries_insert_fresh(Seq::empty(), "Host"@, "localhost"@);
        assert(headers.entries() =~= messages_request_entries());
    }
    Request { method: Method::Get, uri: "/messages".to_owned(), headers, body: None }
}

/// The request that posts `text` in the name of `user`: `POST /messages`
/// with `post_body` as its body.
pub fn post_request(user: &str, text: &str) -> (r: Request)
    ensures
        r.method == Method::Post,
        r.uri@ == "/messages"@,
        r.headers.entries() == post_request_entries(post_body(user@, text@)),
        r.headers.wf(),
        r.body is Some,
        r.body.unwrap()@ == post_body(user@, text@),
{
    let mut body = "{\"user\":\"".to_owned();
    body.append(user);
    body.append("\",\"message\":\"");
    body.append(text);
    body.append("\"}");
    let length = body.as_str().as_bytes().len();
    let mut headers = Headers::new();
    headers.insert("Host".to_owned(), "localhost".to_owned());
    headers.insert("Content-Type".to_owned(), "application/json".to_owned());
    headers.insert("Content-Length".to_owned(), format_unsigned(length));
    proof {
        lemma_post_request_keys();
        let none = Seq::<(Seq<char>, Seq<char>)>::empty();
        let one = none.push(("Host"@, "localhost"@));
        let two = one.push(("Content-Type"@, "application/json"@));
        lemma_entries_insert_fresh(none, "Host"@, "localhost"@);
        lemma_entries_insert_fresh(one, "Content-Type"@, "application/json"@);
        lemma_entries_insert_fresh(two, "Content-Length"@, decimal_digits(length as nat));
        assert(headers.entries() =~= post_request_entries(body@));
    }
    Request { method: Method::Post, uri: "/messages".to_owned(), headers, body: Some(body) }
}

proof fn lemma_post_request_keys()
    ensures
        "Host"@ != "Content-Type"@,
        "Host"@ != "Content-Length"@,
        "Content-Type"@ != "Content-Length"@,
        wire_key("Host"@),
        wire_key("Content-Type"@),
        wire_key("Content-Length"@),
        wire_value("localhost"@),
        wire_value("application/json"@),
        "/messages"@.len() > 0,
        is_token("/messages"@),
{
    reveal_strlit("Host");
    reveal_strlit("Content-Type");
    reveal_strlit("Content-Length");
    reveal_strlit("localhost");
    reveal_strlit("application/json");
    reveal_strlit("/messages");
    assert("Host"@[0] != "Content-Type"@[0]);
    assert("Host"@[0] != "Content-Length"@[0]);
    assert("Content-Type"@[8] != "Content-Length"@[8]);
}

/// The service reads the request for the messages as what it is: a `GET` of
/// `/messages` without a body.
pub proof fn lemma_messages_request_is_read()
    ensures
        parse_request_spec(
            encode_utf8(
                request_text(Method::Get, "/messages"@, messages_request_entries(), None),
            ),
        ) == Ok::<RequestView, Error>(
            RequestView {
                method: Method::Get,
                uri: "/messages"@,
                headers: map!["Host"@ => "localhost"@],
                body: None,
            },
        ),
{
    lemma_post_request_keys();
    reveal_strlit("Host");
    reveal_strlit("Content-Length");
    let entries = messages_request_entries();
    assert(entries.drop_last() =~= Seq::<(Seq<char>, Seq<char>)>::empty());
    assert(entries_map(entries.drop_last()) == Map::<Seq<char>, Seq<char>>::empty());
    assert(entries.last() == ("Host"@, "localhost"@));
    assert(entries_map(entries) =~= map!["Host"@ => "localhost"@]);
    lemma_request_round_trip(Method::Get, "/messages"@, entries, None);
}

/// The service reads a request that posts a body as what it is: a `POST` to
/// `/messages` with that body, whatever the body holds.
pub proof fn lemma_post_request_is_read(body: Seq<char>)
    requires
        encode_utf8(body).len() <= usize::MAX,
    ensures
        parse_request_spec(
            encode_utf8(
                request_text(Method::Post, "/messages"@, post_request_entries(body), Some(body)),
            ),
        ) == Ok::<RequestView, Error>(
            RequestView {
                method: Method::Post,
                uri: "/messages"@,
                headers: map![
                    "Host"@ => "localhost"@,
                    "Content-Type"@ => "application/json"@,
                    "Content-Length"@ => decimal_digits(encode_utf8(body).len()),
                ],
                body: Some(body),
            },
        ),
{
    lemma_post_request_keys();
    let entries = post_request_entries(body);
    let length = encode_utf8(body).len();
    let digits = decimal_digits(length);
    lemma_decimal_digits(length);
    assert(wire_value(digits)) by {
        assert(is_digit(digits[0]));
        assert(is_digit(digits.last()));
        assert forall|i: int| 0 <= i < digits.len() implies digits[i] != '\n' by {
            assert(is_digit(digits[i]));
        }
    }
    let two = entries.drop_last();
    let one = two.drop_last();
    assert(two =~= seq![("Host"@, "localhost"@), ("Content-Type"@, "application/json"@)]);
    assert(one =~= seq![("Host"@, "localhost"@)]);
    assert(one.drop_last() =~= Seq::<(Seq<char>, Seq<char>)>::empty());
    assert(entries_map(one.drop_last()) == Map::<Seq<char>, Seq<char>>::empty());
    assert(one.last() == ("Host"@, "localhost"@));
    assert(two.last() == ("Content-Type"@, "application/json"@));
    assert(entries.last() == ("Content-Length"@, digits));
    let none = Map::<Seq<char>, Seq<char>>::empty();
    assert(entries_map(one) == none.insert("Host"@, "localhost"@));
    assert(entries_map(two) == entries_map(one).insert("Content-Type"@, "application/json"@));
    assert(entries_map(entries) == entries_map(two).insert("Content-Length"@, digits));
    assert(entries_map(entries) =~= map![
        "Host"@ => "localhost"@,
        "Content-Type"@ => "application/json"@,
        "Content-Length"@ => digits,
    ]);
    lemma_request_round_trip(Method::Post, "/messages"@, entries, Some(body));
}

/// The messages that a response to the request for the messages holds: the
/// JSON array that is its body. The status of the response does not count.
pub open spec fn messages_of_response(input: Seq<u8>) -> Result<Seq<MessageView>, Error> {
    match parse_response_spec(input) {
        Ok(response) => messages_of_json(response.body),
        Err(e) => Err(e),
    }
}

/// Reads the messages out of the byte stream of a response.
pub fn read_messages(input: &[u8]) -> (r: Result<Vec<Message>, Error>)
    ensures
        match r {
            Ok(ms) => messages_of_response(input@) == Ok::<Seq<MessageView>, Error>(views(ms@)),
            Err(e) => messages_of_response(input@) == Err::<Seq<MessageView>, Error>(e),
        },
{
    match parse_response(input) {
        Ok(response) => decode_messages(response.body.as_str()),
        Err(e) => Err(e),
    }
}

/// A key of the keyboard, as far as the client tells keys apart.
#[derive(Debug, Clone, Copy, PartialEq, Eq, Structural)]
pub enum Key {
    /// The enter key.
    Enter,
    /// A key that stands for a character.
    Char(char),
    /// Any other key.
    Other,
}

/// What the client does when a key is pressed.
#[derive(Debug, Clone, Copy, PartialEq, Eq, Structural)]
pub enum Action {
    /// Post the text of the input line, and clear the line.
    Submit,
    /// Leave.
    Quit,
    /// Hand the key to the input line.
    Edit,
}

/// What the client does on `key`, pressed with or without the control key:
/// enter submits, control and `c` quits, and everything else edits.
pub open spec fn action_of(key: Key, control: bool) -> Action {
    match key {
        Key::Enter => Action::Submit,
        Key::Char(c) => if c == 'c' && control {
            Action::Quit
        } else {
            Action::Edit
        },
        Key::Other => Action::Edit,
    }
}

/// The line that shows a message: its user, a colon and a space, its text.
pub open spec fn message_line(m: MessageView) -> Seq<char> {
    m.user + ": "@ + m.message
}

/// What the client knows: who its user is, and the messages that it last
/// received.
#[derive(Debug)]
pub struct App {
    /// The name under which the client posts.
    pub user: String,
    /// The messages to show.
    pub messages: Vec<Message>,
}

impl App {
    /// A client for `user` that has received nothing yet.
    pub fn new(user: String) -> (app: App)
        ensures
            app.user@ == user@,
            app.messages@.len() == 0,
    {
        App { user, messages: Vec::new() }
    }

    /// Takes what the channel yielded: a batch of messages replaces the
    /// messages held, and nothing leaves them as they are.
    pub fn receive(&mut self, batch: Option<Vec<Message>>)
        ensures
            final(self).user == old(self).user,
            final(self).messages == match batch {
                Some(messages) => messages,
                None => old(self).messages,
            },
    {
        match batch {
            Some(messages) => {
                self.messages = messages;
            },
            None => {},
        }
    }

    /// What to do on `key`, pressed with or without the control key.
    pub fn on_key(&self, key: Key, control: bool) -> (action: Action)
        ensures
            action == action_of(key, control),
    {
        match key {
            Key::Enter => Action::Submit,
            Key::Char(c) => if c == 'c' && control {
                Action::Quit
            } else {
                Action::Edit
            },
            Key::Other => Action::Edit,
        }
    }

    /// The request that posts `text` in the name of the user.
    pub fn submit(&self, text: &str) -> (r: Request)
        ensures
            r.method == Method::Post,
            r.uri@ == "/messages"@,
            r.headers.entries() == post_request_entries(post_body(self.user@, text@)),
            r.headers.wf(),
            r.body is Some,
            r.body.unwrap()@ == post_body(self.user@, text@),
    {
        post_request(self.user.as_str(), text)
    }

    /// The lines that show the messages held, in their order.
    pub fn lines(&self) -> (lines: Vec<String>)
        ensures
            lines@.len() == self.messages@.len(),
            forall|i: int|
                0 <= i < lines@.len() ==> (#[trigger] lines@[i])@ == message_line(
                    self.messages@[i]@,
                ),
    {
        let mut lines: Vec<String> = Vec::new();
        let mut i: usize = 0;
        while i < self.messages.len()
            invariant
                i <= self.messages@.len(),
                lines@.len() == i,
                forall|j: int|
                    0 <= j < i ==> (#[trigger] lines@[j])@ == message_line(self.messages@[j]@),
            decreases self.messages@.len() - i,
        {
            let mut line = self.messages[i].user.clone();
            line.append(": ");
            line.append(self.messages[i].message.as_str());
            lines.push(line);
            i += 1;
        }
        lines
    }
}

} // verus!
