//! What requests and responses share on the wire: lines, the header block
//! that a blank line ends, and the body whose length a header announces.
//!
//! The input is the whole byte stream of one direction of a connection, up to
//! its end. A read beyond the end yields an empty line, as a closed stream
//! does.

use crate::error::Error;
use crate::headers::{entries_insert, key_index, lemma_key_index, Headers};
use crate::text::{
    chars_of, find, header_parts, is_eol, is_trimmed, lacks, lemma_position_first,
    lemma_strip_eol_prefix, lemma_trim_is_trimmed, parse_unsigned, position, strip_eol,
    strip_eol_len, trim_bounds, word_value,
};
use vstd::prelude::*;
use vstd::slice::slice_subrange;
use vstd::utf8::{
    char_is_scalar, decode_utf8, decode_utf8_encode_utf8, encode_scalar, encode_utf8,
    encode_utf8_decode_utf8, encode_utf8_valid_utf8, valid_utf8,
};

verus! {

/// The text that `String::from_utf8_lossy` makes of bytes that are no valid
/// UTF-8: their decoding, with U+FFFD in the place of each part that is not
/// valid.
pub uninterp spec fn repaired_text(bytes: Seq<u8>) -> Seq<char>;

/// The text of a body: the decoding of its bytes where they are valid UTF-8,
/// and their repaired text where they are not.
pub open spec fn lossy_text(bytes: Seq<u8>) -> Seq<char> {
    if valid_utf8(bytes) {
        decode_utf8(bytes)
    } else {
        repaired_text(bytes)
    }
}

/// A key that can stand on a header line and be read back: trimmed, without
/// a line feed and without a colon.
pub open spec fn wire_key(key: Seq<char>) -> bool {
    is_trimmed(key) && lacks(key, '\n') && lacks(key, ':')
}

/// A value that can stand on a header line and be read back: trimmed, and
/// without a line feed.
pub open spec fn wire_value(value: Seq<char>) -> bool {
    is_trimmed(value) && lacks(value, '\n')
}

/// Every entry of `entries` can stand on a header line and be read back.
pub open spec fn wire_safe(entries: Seq<(Seq<char>, Seq<char>)>) -> bool {
    forall|i: int|
        0 <= i < entries.len() ==> wire_key((#[trigger] entries[i]).0) && wire_value(
            entries[i].1,
        )
}

/// The length of the first line of `input`, its line feed included. Where
/// `input` holds no line feed, the line is all of it.
pub open spec fn line_len(input: Seq<u8>) -> nat
    decreases input.len(),
{
    if input.len() == 0 {
        0
    } else if input[0] == 0x0A {
        1
    } else {
        1 + line_len(input.drop_first())
    }
}

/// A line is no longer than its input, and is empty only where the input is.
pub proof fn lemma_line_len(input: Seq<u8>)
    ensures
        line_len(input) <= input.len(),
        input.len() > 0 ==> line_len(input) > 0,
    decreases input.len(),
{
    if input.len() > 0 && input[0] != 0x0A {
        lemma_line_len(input.drop_first());
    }
}

/// The first line of `input` as text, line feed included. There is none where
/// its bytes are no valid UTF-8.
pub open spec fn first_line(input: Seq<u8>) -> Option<Seq<char>> {
    let raw = input.take(line_len(input) as int);
    if valid_utf8(raw) {
        Some(decode_utf8(raw))
    } else {
        None
    }
}

/// What follows the first line of `input`.
pub open spec fn after_line(input: Seq<u8>) -> Seq<u8> {
    input.skip(line_len(input) as int)
}

/// Reads header lines from `input` into `headers` until a line that is empty
/// once its line ending is taken off, and gives the headers and what follows
/// that line. A later line replaces an earlier one of the same key.
pub open spec fn header_block(input: Seq<u8>, headers: Map<Seq<char>, Seq<char>>) -> Result<
    (Map<Seq<char>, Seq<char>>, Seq<u8>),
    Error,
>
    decreases input.len(),
{
    match first_line(input) {
        None => Err(Error::ConnectionError),
        Some(line) => {
            let text = strip_eol(line);
            if text.len() == 0 {
                Ok((headers, after_line(input)))
            } else {
                proof {
                    lemma_line_len(input);
                }
                match header_parts(text) {
                    None => Err(Error::MalformedHeader),
                    Some((key, value)) => header_block(
                        after_line(input),
                        headers.insert(key, value),
                    ),
                }
            }
        },
    }
}

/// The body that `headers` announce in `rest`: as many bytes as
/// `Content-Length` says, read as text. Without that header there is no body.
pub open spec fn body_of(headers: Map<Seq<char>, Seq<char>>, rest: Seq<u8>) -> Result<
    Option<Seq<char>>,
    Error,
> {
    if !headers.contains_key("Content-Length"@) {
        Ok(None)
    } else {
        match word_value(headers["Content-Length"@]) {
            None => Err(Error::InvalidContentLength),
            Some(n) => if n <= rest.len() {
                Ok(Some(lossy_text(rest.take(n as int))))
            } else {
                Err(Error::ConnectionError)
            },
        }
    }
}

/// Calls `std::str::from_utf8`. It accepts exactly the valid UTF-8, and then
/// gives the text that the bytes encode.
#[verifier::external_body]
pub(crate) fn decode_strict(bytes: &[u8]) -> (r: Option<&str>)
    ensures
        r is Some <==> valid_utf8(bytes@),
        r is Some ==> r.unwrap()@ == decode_utf8(bytes@),
{
    std::str::from_utf8(bytes).ok()
}

/// Calls `String::from_utf8_lossy`. Valid UTF-8 is decoded as it stands;
/// of other bytes the text is their `repaired_text`.
#[verifier::external_body]
pub(crate) fn decode_lossy(bytes: &[u8]) -> (r: String)
    ensures
        valid_utf8(bytes@) ==> r@ == decode_utf8(bytes@),
        !valid_utf8(bytes@) ==> r@ == repaired_text(bytes@),
{
    String::from_utf8_lossy(bytes).into_owned()
}

/// Where the line that starts at `from` ends.
pub(crate) fn line_end(input: &[u8], from: usize) -> (end: usize)
    requires
        from <= input@.len(),
    ensures
        from <= end <= input@.len(),
        end - from == line_len(input@.skip(from as int)),
        input@.subrange(from as int, end as int) == input@.skip(from as int).take(
            line_len(input@.skip(from as int)) as int,
        ),
        input@.skip(end as int) == after_line(input@.skip(from as int)),
{
    let mut end: usize = from;
    let mut found: bool = false;
    while end < input.len() && !found
        invariant
            from <= end <= input@.len(),
            line_len(input@.skip(from as int)) == (end - from) + if found {
                0
            } else {
                line_len(input@.skip(end as int))
            },
        decreases input@.len() - end,
    {
        assert(input@.skip(end as int).drop_first() =~= input@.skip(end as int + 1));
        assert(input@.skip(end as int)[0] == input@[end as int]);
        found = input[end] == 0x0A;
        end += 1;
    }
    assert(input@.skip(from as int).take(end - from) =~= input@.subrange(from as int, end as int));
    assert(input@.skip(from as int).skip(end - from) =~= input@.skip(end as int));
    end
}

/// Reads the header block that starts at `from`, and says where what follows
/// it starts.
pub(crate) fn read_headers(input: &[u8], from: usize) -> (r: Result<(Headers, usize), Error>)
    requires
        from <= input@.len(),
    ensures
        match r {
            Ok((headers, next)) => {
                &&& from <= next <= input@.len()
                &&& headers.wf()
                &&& wire_safe(headers.entries())
                &&& header_block(input@.skip(from as int), Map::empty()) == Ok::<
                    (Map<Seq<char>, Seq<char>>, Seq<u8>),
                    Error,
                >((headers@, input@.skip(next as int)))
            },
            Err(e) => header_block(input@.skip(from as int), Map::empty()) == Err::<
                (Map<Seq<char>, Seq<char>>, Seq<u8>),
                Error,
            >(e),
        },
{
    let mut headers = Headers::new();
    let mut pos: usize = from;
    loop
        invariant
            from <= pos <= input@.len(),
            headers.wf(),
            wire_safe(headers.entries()),
            header_block(input@.skip(pos as int), headers@) == header_block(
                input@.skip(from as int),
                Map::empty(),
            ),
        decreases input@.len() - pos,
    {
        let end = line_end(input, pos);
        proof {
            lemma_line_len(input@.skip(pos as int));
        }
        let line = match decode_strict(slice_subrange(input, pos, end)) {
            Some(line) => line,
            None => {
                return Err(Error::ConnectionError);
            },
        };
        let chars = chars_of(line);
        let n = strip_eol_len(chars.as_slice());
        if n == 0 {
            return Ok((headers, end));
        }
        let colon = match find(chars.as_slice(), n, ':') {
            Some(colon) => colon,
            None => {
                return Err(Error::MalformedHeader);
            },
        };
        let (a, b) = trim_bounds(chars.as_slice(), 0, colon);
        let (c, d) = trim_bounds(chars.as_slice(), colon + 1, n);
        proof {
            let text = chars@.take(n as int);
            assert(text.take(colon as int) =~= chars@.subrange(0, colon as int));
            assert(text.skip(colon as int + 1) =~= chars@.subrange(colon as int + 1, n as int));
            lemma_line_text(input@.skip(pos as int));
            lemma_header_parts(text);
        }
        let key = line.substring_char(a, b).to_owned();
        let value = line.substring_char(c, d).to_owned();
        proof {
            lemma_wire_safe_insert(headers.entries(), key@, value@);
        }
        headers.insert(key, value);
        pos = end;
    }
}

/// Reads the body that `headers` announce from what starts at `from`.
pub(crate) fn read_body(headers: &Headers, input: &[u8], from: usize) -> (r: Result<
    Option<String>,
    Error,
>)
    requires
        headers.wf(),
        from <= input@.len(),
    ensures
        match r {
            Ok(Some(body)) => body_of(headers@, input@.skip(from as int)) == Ok::<
                Option<Seq<char>>,
                Error,
            >(Some(body@)),
            Ok(None) => body_of(headers@, input@.skip(from as int)) == Ok::<
                Option<Seq<char>>,
                Error,
            >(None),
            Err(e) => body_of(headers@, input@.skip(from as int)) == Err::<
                Option<Seq<char>>,
                Error,
            >(e),
        },
{
    let announced = match headers.get("Content-Length") {
        Some(announced) => announced,
        None => {
            return Ok(None);
        },
    };
    let digits = chars_of(announced.as_str());
    let n = match parse_unsigned(digits.as_slice()) {
        Some(n) => n,
        None => {
            return Err(Error::InvalidContentLength);
        },
    };
    if n > input.len() - from {
        return Err(Error::ConnectionError);
    }
    assert(input@.skip(from as int).take(n as int) =~= input@.subrange(
        from as int,
        from as int + n as int,
    ));
    Ok(Some(decode_lossy(slice_subrange(input, from, from + n))))
}


/// The encoding of two texts in a row is the encoding of the one, then that
/// of the other.
pub proof fn lemma_encode_concat(a: Seq<char>, b: Seq<char>)
    ensures
        encode_utf8(a + b) == encode_utf8(a) + encode_utf8(b),
    decreases a.len(),
{
    if a.len() == 0 {
        assert(a + b =~= b);
        assert(encode_utf8(a) + encode_utf8(b) =~= encode_utf8(b));
    } else {
        assert((a + b)[0] == a[0]);
        assert((a + b).drop_first() =~= a.drop_first() + b);
        lemma_encode_concat(a.drop_first(), b);
        assert(encode_utf8(a + b) =~= encode_utf8(a) + encode_utf8(b));
    }
}

/// `bytes` hold no line feed.
pub open spec fn one_line(bytes: Seq<u8>) -> bool {
    forall|i: int| 0 <= i < bytes.len() ==> bytes[i] != 0x0A
}

/// Only the line feed has a byte 0x0A in its encoding, and it has that alone.
pub proof fn lemma_encode_line_feed(c: char)
    ensures
        encode_scalar(c as u32).len() > 0,
        c == '\n' ==> encode_scalar(c as u32) == seq![0x0Au8],
        c != '\n' ==> one_line(encode_scalar(c as u32)),
{
    let s = c as u32;
    char_is_scalar(c);
    assert(s <= 0x7F ==> ((s & 0x7F) as u8 == 0x0A <==> s == 0x0A)) by (bit_vector);
    assert((0xC0u8 | ((s >> 6) & 0x1F) as u8) != 0x0A) by (bit_vector);
    assert((0xE0u8 | ((s >> 12) & 0x0F) as u8) != 0x0A) by (bit_vector);
    assert((0xF0u8 | ((s >> 18) & 0x7) as u8) != 0x0A) by (bit_vector);
    assert((0x80u8 | (s & 0x3F) as u8) != 0x0A) by (bit_vector);
    assert((0x80u8 | ((s >> 6) & 0x3F) as u8) != 0x0A) by (bit_vector);
    assert((0x80u8 | ((s >> 12) & 0x3F) as u8) != 0x0A) by (bit_vector);
    if c == '\n' {
        assert(encode_scalar(s) =~= seq![0x0Au8]);
    }
}

/// A text without a line feed has no byte 0x0A in its encoding.
pub proof fn lemma_encode_lacks_line_feed(s: Seq<char>)
    requires
        lacks(s, '\n'),
    ensures
        one_line(encode_utf8(s)),
    decreases s.len(),
{
    if s.len() > 0 {
        lemma_encode_line_feed(s[0]);
        assert forall|i: int| 0 <= i < s.drop_first().len() implies s.drop_first()[i] != '\n' by {
            assert(s.drop_first()[i] == s[i + 1]);
        }
        lemma_encode_lacks_line_feed(s.drop_first());
    }
}

/// A line feed behind bytes that hold none ends the first line.
pub proof fn lemma_line_len_at_line_feed(a: Seq<u8>, b: Seq<u8>)
    requires
        one_line(a),
    ensures
        line_len(a + seq![0x0Au8] + b) == a.len() + 1,
    decreases a.len(),
{
    let whole = a + seq![0x0Au8] + b;
    if a.len() == 0 {
        assert(whole[0] == 0x0A);
    } else {
        assert(whole[0] == a[0]);
        assert(whole.drop_first() =~= a.drop_first() + seq![0x0Au8] + b);
        assert forall|i: int| 0 <= i < a.drop_first().len() implies a.drop_first()[i] != 0x0A by {
            assert(a.drop_first()[i] == a[i + 1]);
        }
        lemma_line_len_at_line_feed(a.drop_first(), b);
    }
}

/// Of the encoding of a text, the first line is what stands up to the first
/// line feed, and what follows the line is the encoding of what follows the
/// line feed.
pub proof fn lemma_first_line(line: Seq<char>, rest: Seq<char>)
    requires
        lacks(line, '\n'),
    ensures
        first_line(encode_utf8(line + seq!['\n'] + rest)) == Some(line + seq!['\n']),
        after_line(encode_utf8(line + seq!['\n'] + rest)) == encode_utf8(rest),
{
    let whole = encode_utf8(line + seq!['\n'] + rest);
    let head = encode_utf8(line);
    let tail = encode_utf8(rest);
    lemma_encode_concat(line + seq!['\n'], rest);
    lemma_encode_concat(line, seq!['\n']);
    lemma_encode_line_feed('\n');
    let feed = seq!['\n'];
    assert(feed.drop_first() =~= Seq::<char>::empty());
    assert(encode_utf8(feed.drop_first()) =~= Seq::<u8>::empty());
    assert(encode_utf8(feed) == encode_scalar(feed[0] as u32) + encode_utf8(feed.drop_first()));
    assert(encode_utf8(feed) =~= seq![0x0Au8]);
    assert(whole == head + seq![0x0Au8] + tail);
    lemma_encode_lacks_line_feed(line);
    lemma_line_len_at_line_feed(head, tail);
    assert(whole.take(head.len() as int + 1) =~= head + seq![0x0Au8]);
    assert(whole.skip(head.len() as int + 1) =~= tail);
    encode_utf8_valid_utf8(line + seq!['\n']);
    encode_utf8_decode_utf8(line + seq!['\n']);
}


/// Before its last byte, a line holds no line feed.
pub proof fn lemma_line_feeds(input: Seq<u8>)
    ensures
        line_len(input) > 0 ==> one_line(input.take(line_len(input) - 1)),
    decreases input.len(),
{
    lemma_line_len(input);
    if input.len() > 0 && input[0] != 0x0A {
        let rest = input.drop_first();
        lemma_line_feeds(rest);
        lemma_line_len(rest);
        let n = line_len(input) as int;
        if rest.len() > 0 {
            let head = input.take(n - 1);
            let tail = rest.take(n - 2);
            assert forall|i: int| 0 <= i < head.len() implies head[i] != 0x0A by {
                if i > 0 {
                    assert(head[i] == tail[i - 1]);
                }
            }
        }
    }
}

/// The encoding of a text that is not empty is not empty.
pub proof fn lemma_encode_not_empty(s: Seq<char>)
    requires
        s.len() > 0,
    ensures
        encode_utf8(s).len() > 0,
{
    lemma_encode_line_feed(s[0]);
}

/// The text of a line, once its line ending is taken off, holds no line
/// feed.
pub proof fn lemma_line_text(input: Seq<u8>)
    requires
        first_line(input) is Some,
    ensures
        lacks(strip_eol(first_line(input).unwrap()), '\n'),
{
    let raw = input.take(line_len(input) as int);
    let chars = decode_utf8(raw);
    let text = strip_eol(chars);
    lemma_line_len(input);
    lemma_line_feeds(input);
    lemma_strip_eol_prefix(chars);
    decode_utf8_encode_utf8(raw);
    assert forall|j: int| 0 <= j < text.len() implies text[j] != '\n' by {
        assert(text[j] == chars[j]);
        if chars[j] == '\n' {
            assert(j < chars.len() - 1) by {
                if j == chars.len() - 1 {
                    assert(is_eol(chars.last()));
                    lemma_strip_eol_prefix(chars.drop_last());
                    assert(text == strip_eol(chars.drop_last()));
                }
            }
            let before = chars.take(j);
            let behind = chars.skip(j + 1);
            assert(chars =~= before + seq!['\n'] + behind);
            lemma_encode_concat(before + seq!['\n'], behind);
            lemma_encode_concat(before, seq!['\n']);
            lemma_encode_line_feed('\n');
            let feed = seq!['\n'];
            assert(feed.drop_first() =~= Seq::<char>::empty());
            assert(encode_utf8(feed.drop_first()) =~= Seq::<u8>::empty());
            assert(encode_utf8(feed) == encode_scalar(feed[0] as u32) + encode_utf8(
                feed.drop_first(),
            ));
            assert(encode_utf8(feed) =~= seq![0x0Au8]);
            lemma_encode_not_empty(behind);
            let at = encode_utf8(before).len() as int;
            assert(raw[at] == 0x0A);
            assert(raw.take(raw.len() - 1)[at] == raw[at]);
            assert(input.take(line_len(input) - 1) =~= raw.take(raw.len() - 1));
        }
    }
}

/// Key and value of a header line without a line feed can stand on a header
/// line and be read back.
pub proof fn lemma_header_parts(text: Seq<char>)
    requires
        lacks(text, '\n'),
        header_parts(text) is Some,
    ensures
        wire_key(header_parts(text).unwrap().0),
        wire_value(header_parts(text).unwrap().1),
{
    let at = position(text, ':') as int;
    lemma_position_first(text, ':');
    lemma_trim_is_trimmed(text.take(at), ':');
    lemma_trim_is_trimmed(text.take(at), '\n');
    lemma_trim_is_trimmed(text.skip(at + 1), '\n');
}

/// Putting an entry that can stand on the wire into entries that can leaves
/// entries that can.
pub proof fn lemma_wire_safe_insert(
    entries: Seq<(Seq<char>, Seq<char>)>,
    key: Seq<char>,
    value: Seq<char>,
)
    requires
        wire_safe(entries),
        wire_key(key),
        wire_value(value),
    ensures
        wire_safe(entries_insert(entries, key, value)),
{
    let after = entries_insert(entries, key, value);
    lemma_key_index(entries, key);
    assert forall|i: int| 0 <= i < after.len() implies wire_key((#[trigger] after[i]).0)
        && wire_value(after[i].1) by {
        if i < entries.len() && i != key_index(entries, key) {
            assert(after[i] == entries[i]);
        }
    }
}


} // verus!
