//! Reading back what was written: a response that is put on the wire and
//! read from it again is the response that was put there.

use crate::error::Error;
use crate::headers::{distinct_keys, entries_map};
use crate::messages::MessageView;
use crate::request::{
    block_text, method_of, method_text, parse_request_spec, request_line, request_text, Method,
    RequestView,
};
use crate::response::{
    body_headers, header_line, header_lines, parse_response_spec, status_line, status_text,
    wire_text, Response, ResponseView, Status,
};
use crate::service::reply;
use crate::text::{
    after_first_token, decimal_digits, digits_value, first_token, header_parts, is_digit,
    is_token, is_whitespace, lacks, lemma_decimal_digits, lemma_first_token, lemma_position,
    lemma_strip_eol, lemma_trim_after_space, lemma_trim_trimmed, strip_eol, unsigned_value,
    word_value,
};
use crate::wire::{
    header_block, lemma_first_line, lemma_line_len, wire_key, wire_safe, wire_value,
};
use vstd::prelude::*;
use vstd::utf8::{encode_utf8, encode_utf8_decode_utf8, encode_utf8_valid_utf8};

verus! {

/// `headers` after the entries of `entries` were put into it one after the
/// other.
pub open spec fn insert_all(
    headers: Map<Seq<char>, Seq<char>>,
    entries: Seq<(Seq<char>, Seq<char>)>,
) -> Map<Seq<char>, Seq<char>>
    decreases entries.len(),
{
    if entries.len() == 0 {
        headers
    } else {
        insert_all(headers.insert(entries[0].0, entries[0].1), entries.drop_first())
    }
}

/// The headers announce the length that `body` has in bytes.
pub open spec fn length_matches(headers: Map<Seq<char>, Seq<char>>, body: Seq<char>) -> bool {
    &&& headers.contains_key("Content-Length"@)
    &&& word_value(headers["Content-Length"@]) is Some
    &&& word_value(headers["Content-Length"@]).unwrap() == encode_utf8(body).len()
}

proof fn lemma_block_text_push(entries: Seq<(Seq<char>, Seq<char>)>, last: (Seq<char>, Seq<char>))
    ensures
        block_text(entries.push(last)) == block_text(entries) + header_line(last) + "\r\n"@,
    decreases entries.len(),
{
    let all = entries.push(last);
    if entries.len() == 0 {
        assert(all.drop_first() =~= Seq::<(Seq<char>, Seq<char>)>::empty());
        assert(block_text(all.drop_first()) =~= Seq::<char>::empty());
        assert(all[0] == last);
        assert(block_text(all) =~= header_line(last) + "\r\n"@);
        assert(block_text(entries) + header_line(last) + "\r\n"@ =~= header_line(last) + "\r\n"@);
    } else {
        assert(all.drop_first() =~= entries.drop_first().push(last));
        assert(all[0] == entries[0]);
        lemma_block_text_push(entries.drop_first(), last);
        assert(block_text(all) =~= block_text(entries) + header_line(last) + "\r\n"@);
    }
}

proof fn lemma_header_lines(entries: Seq<(Seq<char>, Seq<char>)>)
    requires
        entries.len() > 0,
    ensures
        header_lines(entries) + "\r\n"@ == block_text(entries),
    decreases entries.len(),
{
    let front = entries.drop_last();
    assert(front.push(entries.last()) =~= entries);
    lemma_block_text_push(front, entries.last());
    if entries.len() == 1 {
        assert(block_text(front) =~= Seq::<char>::empty());
        assert(header_lines(entries) + "\r\n"@ =~= block_text(entries));
    } else {
        lemma_header_lines(front);
        assert(header_lines(entries) + "\r\n"@ =~= block_text(entries));
    }
}

proof fn lemma_insert_all_push(
    headers: Map<Seq<char>, Seq<char>>,
    entries: Seq<(Seq<char>, Seq<char>)>,
    last: (Seq<char>, Seq<char>),
)
    ensures
        insert_all(headers, entries.push(last)) == insert_all(headers, entries).insert(
            last.0,
            last.1,
        ),
    decreases entries.len(),
{
    let all = entries.push(last);
    if entries.len() == 0 {
        assert(all.drop_first() =~= Seq::<(Seq<char>, Seq<char>)>::empty());
        assert(all[0] == last);
        assert(insert_all(headers.insert(last.0, last.1), all.drop_first()) == headers.insert(
            last.0,
            last.1,
        ));
    } else {
        assert(all.drop_first() =~= entries.drop_first().push(last));
        assert(all[0] == entries[0]);
        lemma_insert_all_push(
            headers.insert(entries[0].0, entries[0].1),
            entries.drop_first(),
            last,
        );
    }
}

proof fn lemma_insert_all(entries: Seq<(Seq<char>, Seq<char>)>)
    ensures
        insert_all(Map::empty(), entries) == entries_map(entries),
    decreases entries.len(),
{
    if entries.len() > 0 {
        let front = entries.drop_last();
        assert(front.push(entries.last()) =~= entries);
        lemma_insert_all_push(Map::empty(), front, entries.last());
        lemma_insert_all(front);
    }
}

/// A header line made of a key and a value that can stand on the wire is read
/// back as that key and that value.
pub proof fn lemma_header_line(key: Seq<char>, value: Seq<char>)
    requires
        wire_key(key),
        wire_value(value),
    ensures
        lacks(header_line((key, value)) + seq!['\r'], '\n'),
        strip_eol(header_line((key, value)) + seq!['\r', '\n']) == header_line((key, value)),
        header_line((key, value)).len() > 0,
        header_parts(header_line((key, value))) == Some((key, value)),
{
    reveal_strlit(": ");
    let line = header_line((key, value));
    assert(line =~= key + seq![':'] + (seq![' '] + value));
    assert(is_whitespace(' ') && is_whitespace('\r') && is_whitespace('\n'));
    assert(line.last() == if value.len() > 0 {
        value.last()
    } else {
        ' '
    });
    lemma_strip_eol(line);
    lemma_position(key, ':', seq![' '] + value);
    assert(line.take(key.len() as int) =~= key);
    assert(line.skip(key.len() as int + 1) =~= seq![' '] + value);
    lemma_trim_trimmed(key);
    lemma_trim_after_space(value);
}

/// A header block that was written from entries that can stand on the wire
/// is read back as the map of these entries, up to the blank line that ends
/// it.
pub proof fn lemma_header_block(
    entries: Seq<(Seq<char>, Seq<char>)>,
    body: Seq<char>,
    headers: Map<Seq<char>, Seq<char>>,
)
    requires
        wire_safe(entries),
    ensures
        header_block(encode_utf8(block_text(entries) + "\r\n"@ + body), headers) == Ok::<
            (Map<Seq<char>, Seq<char>>, Seq<u8>),
            Error,
        >((insert_all(headers, entries), encode_utf8(body))),
    decreases entries.len(),
{
    reveal_strlit("\r\n");
    let text = block_text(entries) + "\r\n"@ + body;
    if entries.len() == 0 {
        let none = Seq::<char>::empty();
        assert(text =~= seq!['\r'] + seq!['\n'] + body);
        lemma_first_line(seq!['\r'], body);
        lemma_strip_eol(none);
        assert(none + seq!['\r', '\n'] =~= seq!['\r'] + seq!['\n']);
    } else {
        let (key, value) = entries[0];
        let line = header_line(entries[0]);
        let rest = block_text(entries.drop_first()) + "\r\n"@ + body;
        assert(wire_key(entries[0].0) && wire_value(entries[0].1));
        lemma_header_line(key, value);
        assert(text =~= (line + seq!['\r']) + seq!['\n'] + rest);
        lemma_first_line(line + seq!['\r'], rest);
        assert((line + seq!['\r']) + seq!['\n'] =~= line + seq!['\r', '\n']);
        assert(wire_safe(entries.drop_first())) by {
            assert forall|i: int| 0 <= i < entries.drop_first().len() implies wire_key(
                (#[trigger] entries.drop_first()[i]).0,
            ) && wire_value(entries.drop_first()[i].1) by {
                assert(entries.drop_first()[i] == entries[i + 1]);
            }
        }
        lemma_header_block(entries.drop_first(), body, headers.insert(key, value));
        lemma_line_len(encode_utf8(text));
    }
}

/// Each status line names its status.
pub proof fn lemma_status_line(status: Status)
    ensures
        lacks(status_text(status) + seq!['\r'], '\n'),
        status_line(status_text(status) + seq!['\r', '\n']) == Ok::<Status, Error>(status),
{
    reveal_strlit("HTTP/1.1 200 OK");
    reveal_strlit("HTTP/1.1 404 NOT FOUND");
    reveal_strlit("HTTP/1.1 400 BAD REQUEST");
    let version = seq!['H', 'T', 'T', 'P', '/', '1', '.', '1'];
    let (code, reason) = match status {
        Status::Success => (seq!['2', '0', '0'], seq![' ', 'O', 'K']),
        Status::NotFound => (seq!['4', '0', '4'], seq![' ', 'N', 'O', 'T', ' ', 'F', 'O', 'U', 'N', 'D']),
        Status::BadRequest => (
            seq!['4', '0', '0'],
            seq![' ', 'B', 'A', 'D', ' ', 'R', 'E', 'Q', 'U', 'E', 'S', 'T'],
        ),
    };
    let line = status_text(status) + seq!['\r', '\n'];
    let none = Seq::<char>::empty();
    let tail = reason + seq!['\r', '\n'];
    assert(line =~= none + version + (seq![' '] + code + tail));
    assert(is_whitespace(' '));
    assert(is_token(version));
    assert(is_token(code));
    lemma_first_token(none, version, seq![' '] + code + tail);
    lemma_first_token(seq![' '], code, tail);
    assert(first_token(after_first_token(line)) == Some(code));
    assert(digits_value(code) == match status {
        Status::Success => 200nat,
        Status::NotFound => 404nat,
        Status::BadRequest => 400nat,
    }) by {
        reveal_with_fuel(digits_value, 4);
        assert(code.drop_last() =~= seq![code[0], code[1]]);
        assert(code.drop_last().drop_last() =~= seq![code[0]]);
        assert(code.drop_last().drop_last().drop_last() =~= none);
    }
    assert(unsigned_value(code) == Some(digits_value(code)));
}

/// A response whose headers can stand on the wire and announce the length of
/// its body is read back from its text on the wire as it was: with its
/// status, its headers as a map, and its body.
pub proof fn lemma_wire_round_trip(
    status: Status,
    entries: Seq<(Seq<char>, Seq<char>)>,
    body: Seq<char>,
)
    requires
        wire_safe(entries),
        length_matches(entries_map(entries), body),
    ensures
        parse_response_spec(encode_utf8(wire_text(status, entries, body))) == Ok::<
            ResponseView,
            Error,
        >(ResponseView { status, headers: entries_map(entries), body }),
{
    reveal_strlit("\r\n");
    reveal_strlit("\r\n\r\n");
    let text = wire_text(status, entries, body);
    let rest = block_text(entries) + "\r\n"@ + body;
    assert(entries.len() > 0) by {
        if entries.len() == 0 {
            assert(!entries_map(entries).contains_key("Content-Length"@));
        }
    }
    lemma_header_lines(entries);
    assert(text =~= (status_text(status) + seq!['\r']) + seq!['\n'] + rest) by {
        assert("\r\n\r\n"@ =~= "\r\n"@ + "\r\n"@);
        assert(header_lines(entries) + "\r\n\r\n"@ =~= header_lines(entries) + "\r\n"@ + "\r\n"@);
    }
    lemma_status_line(status);
    lemma_first_line(status_text(status) + seq!['\r'], rest);
    assert((status_text(status) + seq!['\r']) + seq!['\n'] =~= status_text(status) + seq![
        '\r',
        '\n',
    ]);
    lemma_header_block(entries, body, Map::empty());
    lemma_insert_all(entries);
    let bytes = encode_utf8(body);
    assert(bytes.take(bytes.len() as int) =~= bytes);
    encode_utf8_valid_utf8(body);
    encode_utf8_decode_utf8(body);
}

/// Serialising a response and parsing the result gives the response back,
/// whatever its status and its body, up to the order of its headers: for
/// every response that is fit for the wire, which is to say, whose headers
/// can stand on the wire and announce the length that the body has in bytes.
pub proof fn lemma_response_round_trip(response: Response)
    requires
        response.wf(),
    ensures
        parse_response_spec(
            encode_utf8(
                wire_text(response.status, response.headers.entries(), response.body@),
            ),
        ) == Ok::<ResponseView, Error>(response@),
{
    lemma_wire_round_trip(response.status, response.headers.entries(), response.body@);
}

/// The two headers that describe a body can stand on the wire, where the
/// content type can, and announce the length of the body, where that fits
/// the machine word.
pub proof fn lemma_body_headers(content_type: Seq<char>, body: Seq<char>)
    requires
        wire_value(content_type),
        encode_utf8(body).len() <= usize::MAX,
    ensures
        distinct_keys(body_headers(content_type, body)),
        wire_safe(body_headers(content_type, body)),
        length_matches(entries_map(body_headers(content_type, body)), body),
        entries_map(body_headers(content_type, body)) == map![
            "Content-Type"@ => content_type,
            "Content-Length"@ => decimal_digits(encode_utf8(body).len()),
        ],
{
    reveal_strlit("Content-Type");
    reveal_strlit("Content-Length");
    let entries = body_headers(content_type, body);
    let length = encode_utf8(body).len();
    let digits = decimal_digits(length);
    lemma_decimal_digits(length);
    assert("Content-Type"@[8] != "Content-Length"@[8]);
    assert(wire_key("Content-Type"@));
    assert(wire_key("Content-Length"@));
    assert(wire_value(digits)) by {
        assert(is_digit(digits[0]));
        assert(is_digit(digits.last()));
        assert forall|i: int| 0 <= i < digits.len() implies digits[i] != '\n' by {
            assert(is_digit(digits[i]));
        }
    }
    let one = entries.drop_last();
    assert(one =~= seq![("Content-Type"@, content_type)]);
    assert(one.drop_last() =~= Seq::<(Seq<char>, Seq<char>)>::empty());
    assert(entries_map(one.drop_last()) == Map::<Seq<char>, Seq<char>>::empty());
    assert(one.last() == ("Content-Type"@, content_type));
    assert(entries_map(one) == Map::<Seq<char>, Seq<char>>::empty().insert(
        "Content-Type"@,
        content_type,
    ));
    assert(entries_map(entries) =~= map![
        "Content-Type"@ => content_type,
        "Content-Length"@ => digits,
    ]);
}

/// The content types of the service can stand on the wire.
pub proof fn lemma_content_types()
    ensures
        wire_value("application/json"@),
        wire_value("text/plain"@),
{
    reveal_strlit("application/json");
    reveal_strlit("text/plain");
}

/// What the service answers, a client reads back: the text of every response
/// of the service is parsed as a response with the status and the body of
/// the reply, and with the two headers that describe the body.
pub proof fn lemma_reply_round_trip(request: RequestView, store: Seq<MessageView>)
    requires
        reply(request, store) is Ok,
        encode_utf8(reply(request, store).unwrap().body).len() <= usize::MAX,
    ensures
        ({
            let r = reply(request, store).unwrap();
            parse_response_spec(
                encode_utf8(wire_text(r.status, body_headers(r.content_type, r.body), r.body)),
            ) == Ok::<ResponseView, Error>(
                ResponseView {
                    status: r.status,
                    headers: map![
                        "Content-Type"@ => r.content_type,
                        "Content-Length"@ => decimal_digits(encode_utf8(r.body).len()),
                    ],
                    body: r.body,
                },
            )
        }),
{
    let r = reply(request, store).unwrap();
    lemma_content_types();
    lemma_body_headers(r.content_type, r.body);
    lemma_wire_round_trip(r.status, body_headers(r.content_type, r.body), r.body);
}


/// A request whose URI is one token, and whose headers can stand on the wire
/// and announce the length of its body where it has one, is read back from
/// its text on the wire as it was: with its method, its URI, its headers as
/// a map, and its body.
pub proof fn lemma_request_round_trip(
    method: Method,
    uri: Seq<char>,
    entries: Seq<(Seq<char>, Seq<char>)>,
    body: Option<Seq<char>>,
)
    requires
        uri.len() > 0,
        is_token(uri),
        wire_safe(entries),
        match body {
            Some(text) => length_matches(entries_map(entries), text),
            None => !entries_map(entries).contains_key("Content-Length"@),
        },
    ensures
        parse_request_spec(encode_utf8(request_text(method, uri, entries, body))) == Ok::<
            RequestView,
            Error,
        >(RequestView { method, uri, headers: entries_map(entries), body }),
{
    reveal_strlit("GET");
    reveal_strlit("POST");
    reveal_strlit(" ");
    reveal_strlit(" HTTP/1.1\r\n");
    reveal_strlit("\r\n");
    let name = method_text(method);
    let none = Seq::<char>::empty();
    let version = seq![' ', 'H', 'T', 'T', 'P', '/', '1', '.', '1'];
    let content = match body {
        Some(text) => text,
        None => none,
    };
    let rest = block_text(entries) + "\r\n"@ + content;
    let start = name + seq![' '] + uri + version + seq!['\r'];
    let line = start + seq!['\n'];
    assert(name.len() == 3 || name.len() == 4);
    assert(is_token(name));
    assert(method_of(name) == Some(method));
    assert(is_whitespace(' ') && is_whitespace('\n'));
    assert(request_text(method, uri, entries, body) =~= start + seq!['\n'] + rest);
    assert(lacks(start, '\n')) by {
        assert forall|i: int| 0 <= i < uri.len() implies uri[i] != '\n' by {
            assert(!is_whitespace(uri[i]));
        }
    }
    lemma_first_line(start, rest);
    assert(line =~= none + name + (seq![' '] + uri + (version + seq!['\r', '\n'])));
    lemma_first_token(none, name, seq![' '] + uri + (version + seq!['\r', '\n']));
    lemma_first_token(seq![' '], uri, version + seq!['\r', '\n']);
    assert(request_line(line) == Ok::<(Method, Seq<char>), Error>((method, uri)));
    lemma_header_block(entries, content, Map::empty());
    lemma_insert_all(entries);
    let bytes = encode_utf8(content);
    assert(bytes.take(bytes.len() as int) =~= bytes);
    encode_utf8_valid_utf8(content);
    encode_utf8_decode_utf8(content);
}


} // verus!
