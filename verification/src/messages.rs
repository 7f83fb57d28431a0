//! Chat messages, their JSON form, and the store that holds them in the order
//! in which they came.

use crate::error::Error;
use crate::json::{
    items_view, json_document, json_string, members_view, quote, read, Json, JsonView, Members,
    MembersView,
};
use crate::text::same_text;
use vstd::prelude::*;

verus! {

/// One chat message.
#[derive(Debug)]
pub struct Message {
    /// Who sent it.
    pub user: String,
    /// What it says.
    pub message: String,
}

/// A message as text.
pub struct MessageView {
    pub user: Seq<char>,
    pub message: Seq<char>,
}

impl View for Message {
    type V = MessageView;

    open spec fn view(&self) -> MessageView {
        MessageView { user: self.user@, message: self.message@ }
    }
}

impl Clone for Message {
    fn clone(&self) -> (m: Message)
        ensures
            m == *self,
    {
        Message { user: self.user.clone(), message: self.message.clone() }
    }
}

/// The messages of `ms` as text, in the same order.
pub open spec fn views(ms: Seq<Message>) -> Seq<MessageView> {
    Seq::new(ms.len(), |i: int| ms[i]@)
}

/// The JSON object of one message: its user, then its text.
pub open spec fn message_json(m: MessageView) -> Seq<char> {
    "{\"user\":"@ + json_string(m.user) + ",\"message\":"@ + json_string(m.message) + "}"@
}

/// The JSON objects of `ms` in their order, with a comma between each two.
pub open spec fn message_list_json(ms: Seq<MessageView>) -> Seq<char>
    decreases ms.len(),
{
    if ms.len() == 0 {
        Seq::empty()
    } else if ms.len() == 1 {
        message_json(ms[0])
    } else {
        message_list_json(ms.drop_last()) + ","@ + message_json(ms.last())
    }
}

/// The JSON array of the messages `ms`.
pub open spec fn messages_json(ms: Seq<MessageView>) -> Seq<char> {
    "["@ + message_list_json(ms) + "]"@
}

/// The string under the first member of `members` called `name`. There is
/// none where no member has the name, or where the value of the first that
/// has it is no string.
pub open spec fn member(members: MembersView, name: Seq<char>) -> Option<Seq<char>>
    decreases members.len(),
{
    if members.len() == 0 {
        None
    } else if members[0].0 == name {
        members[0].1
    } else {
        member(members.drop_first(), name)
    }
}

/// The message that the members of a JSON object make up: its `user` and its
/// `message`, both strings. Other members do not count.
pub open spec fn message_of_members(members: MembersView) -> Option<MessageView> {
    match (member(members, "user"@), member(members, "message"@)) {
        (Some(user), Some(message)) => Some(MessageView { user, message }),
        _ => None,
    }
}

/// The message that an item of a JSON array makes up: the item is an object,
/// and its members make up a message.
pub open spec fn message_of_item(item: Option<MembersView>) -> Option<MessageView> {
    match item {
        Some(members) => message_of_members(members),
        None => None,
    }
}

/// The messages that the items of a JSON array make up, where each of them
/// makes one up.
pub open spec fn messages_of_items(items: Seq<Option<MembersView>>) -> Option<Seq<MessageView>> {
    if forall|i: int| 0 <= i < items.len() ==> message_of_item(#[trigger] items[i]) is Some {
        Some(Seq::new(items.len(), |i: int| message_of_item(items[i]).unwrap()))
    } else {
        None
    }
}

/// The message that a JSON document is: an object whose members make up a
/// message.
pub open spec fn message_of_document(document: JsonView) -> Option<MessageView> {
    match document {
        JsonView::Object(members) => message_of_members(members),
        _ => None,
    }
}

/// The messages that a JSON document is: an array whose items each make up
/// a message.
pub open spec fn messages_of_document(document: JsonView) -> Option<Seq<MessageView>> {
    match document {
        JsonView::Array(items) => messages_of_items(items),
        _ => None,
    }
}

/// The message that a JSON text holds, or `InvalidMessage`.
pub open spec fn message_of_json(text: Seq<char>) -> Result<MessageView, Error> {
    match json_document(text) {
        Some(document) => match message_of_document(document) {
            Some(m) => Ok(m),
            None => Err(Error::InvalidMessage),
        },
        None => Err(Error::InvalidMessage),
    }
}

/// The messages that a JSON text holds as an array, or `InvalidMessage`.
pub open spec fn messages_of_json(text: Seq<char>) -> Result<Seq<MessageView>, Error> {
    match json_document(text) {
        Some(document) => match messages_of_document(document) {
            Some(ms) => Ok(ms),
            None => Err(Error::InvalidMessage),
        },
        None => Err(Error::InvalidMessage),
    }
}

/// The JSON object of the message `m`.
pub fn encode_message(m: &Message) -> (r: String)
    ensures
        r@ == message_json(m@),
{
    let mut r = "{\"user\":".to_owned();
    r.append(quote(m.user.as_str()).unwrap().as_str());
    r.append(",\"message\":");
    r.append(quote(m.message.as_str()).unwrap().as_str());
    r.append("}");
    r
}

/// The JSON array of the messages `ms`.
pub fn encode_messages(ms: &[Message]) -> (r: String)
    ensures
        r@ == messages_json(views(ms@)),
{
    let ghost all = views(ms@);
    let mut r = "[".to_owned();
    let mut i: usize = 0;
    while i < ms.len()
        invariant
            i <= ms@.len(),
            all == views(ms@),
            r@ == "["@ + message_list_json(all.take(i as int)),
        decreases ms@.len() - i,
    {
        proof {
            assert(all.take(i as int + 1).drop_last() =~= all.take(i as int));
            assert(all.take(i as int + 1).last() == ms@[i as int]@);
        }
        if i > 0 {
            r.append(",");
        }
        r.append(encode_message(&ms[i]).as_str());
        i += 1;
        assert(r@ =~= "["@ + message_list_json(all.take(i as int)));
    }
    r.append("]");
    assert(all.take(i as int) =~= all);
    r
}

/// The string under the first member called `name`, if it has one.
fn find_member<'a>(members: &'a Members, name: &str) -> (r: Option<&'a String>)
    ensures
        match r {
            Some(s) => member(members_view(members@), name@) == Some(s@),
            None => member(members_view(members@), name@) is None,
        },
{
    let ghost all = members_view(members@);
    let mut i: usize = 0;
    assert(all.skip(0) =~= all);
    while i < members.len()
        invariant
            i <= members@.len(),
            all == members_view(members@),
            member(all, name@) == member(all.skip(i as int), name@),
        decreases members@.len() - i,
    {
        assert(all.skip(i as int).drop_first() =~= all.skip(i as int + 1));
        assert(all.skip(i as int)[0] == all[i as int]);
        if same_text(members[i].0.as_str(), name) {
            return match &members[i].1 {
                Some(s) => Some(s),
                None => None,
            };
        }
        i += 1;
    }
    None
}

/// The message that the members of a JSON object make up, if they make one up.
pub fn message_from_members(members: &Members) -> (r: Option<Message>)
    ensures
        match r {
            Some(m) => message_of_members(members_view(members@)) == Some(m@),
            None => message_of_members(members_view(members@)) is None,
        },
{
    match find_member(members, "user") {
        Some(user) => match find_member(members, "message") {
            Some(message) => Some(Message { user: user.clone(), message: message.clone() }),
            None => None,
        },
        None => None,
    }
}

/// The message that the JSON document `document` is, if it is one.
pub fn message_from_document(document: &Json) -> (r: Option<Message>)
    ensures
        match r {
            Some(m) => message_of_document(document@) == Some(m@),
            None => message_of_document(document@) is None,
        },
{
    match document {
        Json::Object(members) => message_from_members(members),
        _ => None,
    }
}

/// The messages that the JSON document `document` is, if it is an array of
/// messages.
pub fn messages_from_document(document: &Json) -> (r: Option<Vec<Message>>)
    ensures
        match r {
            Some(ms) => messages_of_document(document@) == Some(views(ms@)),
            None => messages_of_document(document@) is None,
        },
{
    let items = match document {
        Json::Array(items) => items,
        _ => {
            return None;
        },
    };
    let ghost all = items_view(items@);
    let mut ms: Vec<Message> = Vec::new();
    let mut i: usize = 0;
    while i < items.len()
        invariant
            i <= items@.len(),
            all == items_view(items@),
            messages_of_document(document@) == messages_of_items(all),
            ms@.len() == i,
            forall|j: int| 0 <= j < i ==> message_of_item(#[trigger] all[j]) == Some(ms@[j]@),
        decreases items@.len() - i,
    {
        let message = match &items[i] {
            Some(members) => message_from_members(members),
            None => None,
        };
        match message {
            Some(m) => {
                ms.push(m);
            },
            None => {
                assert(message_of_item(all[i as int]) is None);
                return None;
            },
        }
        i += 1;
    }
    assert(messages_of_items(all).unwrap() =~= views(ms@));
    Some(ms)
}

/// The message that the JSON text `text` holds.
pub fn decode_message(text: &str) -> (r: Result<Message, Error>)
    ensures
        match r {
            Ok(m) => message_of_json(text@) == Ok::<MessageView, Error>(m@),
            Err(e) => message_of_json(text@) == Err::<MessageView, Error>(e),
        },
{
    match read(text) {
        Some(document) => match message_from_document(&document) {
            Some(m) => Ok(m),
            None => Err(Error::InvalidMessage),
        },
        None => Err(Error::InvalidMessage),
    }
}

/// The messages that the JSON text `text` holds as an array.
pub fn decode_messages(text: &str) -> (r: Result<Vec<Message>, Error>)
    ensures
        match r {
            Ok(ms) => messages_of_json(text@) == Ok::<Seq<MessageView>, Error>(views(ms@)),
            Err(e) => messages_of_json(text@) == Err::<Seq<MessageView>, Error>(e),
        },
{
    match read(text) {
        Some(document) => match messages_from_document(&document) {
            Some(ms) => Ok(ms),
            None => Err(Error::InvalidMessage),
        },
        None => Err(Error::InvalidMessage),
    }
}

/// The messages of the chat, in the order in which they were appended.
pub struct MessageStore {
    messages: Vec<Message>,
}

impl View for MessageStore {
    type V = Seq<MessageView>;

    closed spec fn view(&self) -> Seq<MessageView> {
        views(self.messages@)
    }
}

impl MessageStore {
    /// A store without messages.
    pub fn new() -> (s: MessageStore)
        ensures
            s@ == Seq::<MessageView>::empty(),
    {
        let s = MessageStore { messages: Vec::new() };
        assert(s@ =~= Seq::<MessageView>::empty());
        s
    }

    /// How many messages the store holds.
    pub fn len(&self) -> (n: usize)
        ensures
            n == self@.len(),
    {
        self.messages.len()
    }

    /// Puts `message` behind the messages that the store holds.
    pub fn append(&mut self, message: Message)
        ensures
            final(self)@ == old(self)@.push(message@),
    {
        self.messages.push(message);
        assert(self@ =~= old(self)@.push(message@));
    }

    /// A copy of all messages, in their order.
    pub fn snapshot(&self) -> (copy: Vec<Message>)
        ensures
            views(copy@) == self@,
    {
        let mut copy: Vec<Message> = Vec::new();
        let mut i: usize = 0;
        while i < self.messages.len()
            invariant
                i <= self.messages@.len(),
                copy@ == self.messages@.take(i as int),
            decreases self.messages@.len() - i,
        {
            copy.push(self.messages[i].clone());
            assert(copy@ =~= self.messages@.take(i as int + 1));
            i += 1;
        }
        assert(copy@ =~= self.messages@);
        copy
    }
}

} // verus!
