//! What the service does with a request: the routes, what each answers, and
//! what becomes of the store. Stated over text, for one request and for a
//! sequence of them.

use crate::error::Error;
use crate::messages::{message_of_json, messages_json, MessageView};
use crate::request::{method_of, parse_request_spec, Method, RequestView};
use crate::response::{body_headers, wire_text, Response, Status};
use crate::text::first_token;
use crate::wire::first_line;
use vstd::prelude::*;

verus! {

/// What the service answers to a request, and the store that it leaves.
pub struct Reply {
    pub status: Status,
    pub content_type: Seq<char>,
    pub body: Seq<char>,
    pub store: Seq<MessageView>,
}

/// What the service does with `request` when it holds `store`.
///
/// `GET /messages` answers the store as a JSON array. `POST /messages` with a
/// body that holds a message appends the message and acknowledges it; with a
/// body that holds none it fails, and without a body it answers a bad
/// request. Everything else is not found. Only an appended message changes
/// the store.
pub open spec fn reply(request: RequestView, store: Seq<MessageView>) -> Result<Reply, Error> {
    if request.uri == "/messages"@ {
        match request.method {
            Method::Get => Ok(
                Reply {
                    status: Status::Success,
                    content_type: "application/json"@,
                    body: messages_json(store),
                    store,
                },
            ),
            Method::Post => match request.body {
                Some(text) => match message_of_json(text) {
                    Ok(message) => Ok(
                        Reply {
                            status: Status::Success,
                            content_type: "application/json"@,
                            body: "{\"status\":\"ok\"}"@,
                            store: store.push(message),
                        },
                    ),
                    Err(e) => Err(e),
                },
                None => Ok(
                    Reply {
                        status: Status::BadRequest,
                        content_type: "text/plain"@,
                        body: "Invalid Message"@,
                        store,
                    },
                ),
            },
        }
    } else {
        Ok(
            Reply {
                status: Status::NotFound,
                content_type: "text/plain"@,
                body: "Not Found"@,
                store,
            },
        )
    }
}

/// `response` is the response of `reply`: its status and body, and the two
/// headers that describe the body.
pub open spec fn answers(response: Response, reply: Reply) -> bool {
    &&& response.status == reply.status
    &&& response.body@ == reply.body
    &&& response.headers.entries() == body_headers(reply.content_type, reply.body)
    &&& response.headers.wf()
}

/// What one connection yields: the text of the response to the request that
/// `input` holds, and the store after it. A request that cannot be read, or a
/// posted body that holds no message, yields an error.
pub open spec fn serve(input: Seq<u8>, store: Seq<MessageView>) -> Result<
    (Seq<char>, Seq<MessageView>),
    Error,
> {
    match parse_request_spec(input) {
        Err(e) => Err(e),
        Ok(request) => match reply(request, store) {
            Err(e) => Err(e),
            Ok(r) => Ok(
                (wire_text(r.status, body_headers(r.content_type, r.body), r.body), r.store),
            ),
        },
    }
}

/// The store after the service, starting with `store`, was given
/// `requests` one after the other. A request that fails leaves the store as
/// it was.
pub open spec fn store_after(requests: Seq<RequestView>, store: Seq<MessageView>) -> Seq<
    MessageView,
>
    decreases requests.len(),
{
    if requests.len() == 0 {
        store
    } else {
        let before = store_after(requests.drop_last(), store);
        match reply(requests.last(), before) {
            Ok(r) => r.store,
            Err(_) => before,
        }
    }
}

/// `request` is a `POST` that the service, holding `store`, answers with
/// status 200.
pub open spec fn accepted_post(request: RequestView, store: Seq<MessageView>) -> bool {
    request.method == Method::Post && (reply(request, store) matches Ok(r) && r.status
        == Status::Success)
}

/// How many of `requests`, given one after the other to the service that
/// starts with `store`, are `POST`s answered with status 200.
pub open spec fn accepted_posts(requests: Seq<RequestView>, store: Seq<MessageView>) -> nat
    decreases requests.len(),
{
    if requests.len() == 0 {
        0
    } else {
        let before = store_after(requests.drop_last(), store);
        accepted_posts(requests.drop_last(), store) + if accepted_post(requests.last(), before) {
            1nat
        } else {
            0nat
        }
    }
}

/// A request whose method token is neither `GET` nor `POST` is refused as
/// `UnsupportedMethod`, whatever follows the token, and is not served: the
/// store stays as it was.
pub proof fn lemma_unsupported_method(input: Seq<u8>, store: Seq<MessageView>)
    requires
        first_line(input) is Some,
        first_token(first_line(input).unwrap()) is Some,
        method_of(first_token(first_line(input).unwrap()).unwrap()) is None,
    ensures
        parse_request_spec(input) == Err::<RequestView, Error>(Error::UnsupportedMethod),
        serve(input, store) == Err::<(Seq<char>, Seq<MessageView>), Error>(
            Error::UnsupportedMethod,
        ),
{
}

/// `POST /messages` without a body is a bad request, answered with
/// `Invalid Message` as plain text, and leaves the store as it was.
pub proof fn lemma_post_without_body(request: RequestView, store: Seq<MessageView>)
    requires
        request.method == Method::Post,
        request.uri == "/messages"@,
        request.body is None,
    ensures
        reply(request, store) == Ok::<Reply, Error>(
            Reply {
                status: Status::BadRequest,
                content_type: "text/plain"@,
                body: "Invalid Message"@,
                store,
            },
        ),
{
}

/// A request for anything but `/messages` is answered with `Not Found` as
/// plain text, whatever its method and body, and leaves the store as it was.
pub proof fn lemma_unknown_route(request: RequestView, store: Seq<MessageView>)
    requires
        request.uri != "/messages"@,
    ensures
        reply(request, store) == Ok::<Reply, Error>(
            Reply {
                status: Status::NotFound,
                content_type: "text/plain"@,
                body: "Not Found"@,
                store,
            },
        ),
{
}

/// Whether a `POST` is answered with status 200 does not depend on what the
/// store holds, and so not on the requests that were served before it.
pub proof fn lemma_accepted_post_ignores_store(
    request: RequestView,
    one: Seq<MessageView>,
    other: Seq<MessageView>,
)
    ensures
        accepted_post(request, one) == accepted_post(request, other),
{
}

/// However many requests are served, in whatever order they come, the store
/// grows by exactly one message for each `POST` that is answered with status
/// 200, and keeps what it held: none is lost, and none is stored twice.
pub proof fn lemma_store_counts_accepted_posts(
    requests: Seq<RequestView>,
    store: Seq<MessageView>,
)
    ensures
        store_after(requests, store).len() == store.len() + accepted_posts(requests, store),
        store_after(requests, store).take(store.len() as int) == store,
    decreases requests.len(),
{
    if requests.len() == 0 {
        assert(store.take(store.len() as int) =~= store);
    } else {
        lemma_store_counts_accepted_posts(requests.drop_last(), store);
        let before = store_after(requests.drop_last(), store);
        let after = store_after(requests, store);
        assert(after.take(store.len() as int) =~= before.take(store.len() as int));
    }
}

/// After any number of `POST /messages` with bodies that hold messages,
/// served by a service that starts without messages, the store holds exactly
/// these messages in the order of the requests, and `GET /messages` answers
/// them as one JSON array in that order.
pub proof fn lemma_posts_then_get(
    posts: Seq<RequestView>,
    messages: Seq<MessageView>,
    get: RequestView,
)
    requires
        posts.len() == messages.len(),
        forall|i: int|
            0 <= i < posts.len() ==> {
                &&& (#[trigger] posts[i]).method == Method::Post
                &&& posts[i].uri == "/messages"@
                &&& posts[i].body is Some
                &&& message_of_json(posts[i].body.unwrap()) == Ok::<MessageView, Error>(
                    messages[i],
                )
            },
        get.method == Method::Get,
        get.uri == "/messages"@,
    ensures
        store_after(posts, Seq::empty()) == messages,
        accepted_posts(posts, Seq::empty()) == posts.len(),
        reply(get, store_after(posts, Seq::empty())) == Ok::<Reply, Error>(
            Reply {
                status: Status::Success,
                content_type: "application/json"@,
                body: messages_json(messages),
                store: messages,
            },
        ),
    decreases posts.len(),
{
    if posts.len() == 0 {
        assert(messages =~= Seq::<MessageView>::empty());
    } else {
        let last = posts.last();
        assert(last == posts[posts.len() - 1]);
        assert forall|i: int| 0 <= i < posts.drop_last().len() implies {
            &&& (#[trigger] posts.drop_last()[i]).method == Method::Post
            &&& posts.drop_last()[i].uri == "/messages"@
            &&& posts.drop_last()[i].body is Some
            &&& message_of_json(posts.drop_last()[i].body.unwrap()) == Ok::<MessageView, Error>(
                messages.drop_last()[i],
            )
        } by {
            assert(posts.drop_last()[i] == posts[i]);
        }
        lemma_posts_then_get(posts.drop_last(), messages.drop_last(), get);
        assert(messages.drop_last().push(messages.last()) =~= messages);
    }
}

} // verus!
