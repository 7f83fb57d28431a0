//! A small chat service: the wire codec for its line-oriented protocol, the
//! append-only message store, and the routing of one request to one response.

pub mod args;
pub mod client;
pub mod error;
pub mod framing;
pub mod headers;
pub mod json;
pub mod messages;
pub mod request;
pub mod response;
pub mod round_trip;
pub mod service;
pub mod text;
pub mod wire;

pub use crate::args::{IP_ADDR, PORT};

use crate::error::Error;
use crate::messages::MessageStore;
use crate::request::parse_request;
use crate::response::get_response;
use crate::service::serve;
use vstd::prelude::*;

verus! {

/// Handles one connection: reads the request that `input` holds, serves it
/// from `store`, and gives the text of the response to send back. On an error
/// nothing is to be sent, and the store is as it was.
pub fn handle_connection(input: &[u8], store: &mut MessageStore) -> (r: Result<String, Error>)
    ensures
        match serve(input@, old(store)@) {
            Ok((text, after)) => r is Ok && r.unwrap()@ == text && final(store)@ == after,
            Err(e) => r is Err && r.unwrap_err() == e && final(store)@ == old(store)@,
        },
{
    let request = match parse_request(input) {
        Ok(request) => request,
        Err(e) => {
            return Err(e);
        },
    };
    let response = match get_response(request, store) {
        Ok(response) => response,
        Err(e) => {
            return Err(e);
        },
    };
    Ok(response.to_string())
}

} // verus!
