//! Where a request or a response ends on a stream that is still open: the
//! first line, the header block, and as many bytes behind it as the block
//! announces. What follows a whole frame has no part in how the frame is
//! read.

use crate::error::Error;
use crate::request::parse_request_spec;
use crate::response::parse_response_spec;
use crate::text::{chars_of, header_parts, is_eol, parse_unsigned, strip_eol, word_value};
use crate::wire::{
    after_line, header_block, lemma_line_len, line_end, line_len, read_headers,
};
use vstd::prelude::*;
use vstd::utf8::{
    decode_utf8, decode_utf8_encode_utf8, encode_utf8, encode_utf8_decode_utf8,
    encode_utf8_valid_utf8, is_ascii_chars, is_ascii_chars_encode_utf8, valid_utf8,
};

verus! {

/// The first line of `input` has come to its end: it closes with a line feed.
pub open spec fn line_complete(input: Seq<u8>) -> bool {
    line_len(input) > 0 && input[line_len(input) - 1] == 0x0A
}

/// `line` holds nothing but carriage returns and line feeds.
pub open spec fn blank_line(line: Seq<u8>) -> bool {
    forall|i: int| 0 <= i < line.len() ==> line[i] == 0x0D || line[i] == 0x0A
}

/// The length of the header block at the start of `input`, its blank line
/// included, once all its lines have come to their end.
pub open spec fn block_len(input: Seq<u8>) -> Option<nat>
    decreases input.len(),
{
    let n = line_len(input);
    if !line_complete(input) {
        None
    } else if blank_line(input.take(n as int)) {
        Some(n)
    } else {
        proof {
            lemma_line_len(input);
        }
        match block_len(input.skip(n as int)) {
            Some(m) => Some(n + m),
            None => None,
        }
    }
}

/// The length of the body that the header block at the start of `input`
/// announces: what `Content-Length` says. It is 0 where the block cannot be
/// read, has no such header, or has one that holds no number that fits.
pub open spec fn announced_len(input: Seq<u8>) -> nat {
    match header_block(input, Map::empty()) {
        Ok((headers, _)) => if headers.contains_key("Content-Length"@) {
            match word_value(headers["Content-Length"@]) {
                Some(n) => n as nat,
                None => 0,
            }
        } else {
            0
        },
        Err(_) => 0,
    }
}

/// The length of the request or response at the start of `input`, once all
/// of it has arrived: its first line, its header block, and the body that
/// the block announces. As long as a part is missing there is none, and more
/// of the stream has to be read.
pub open spec fn frame_len(input: Seq<u8>) -> Option<nat> {
    if !line_complete(input) {
        None
    } else {
        match block_len(after_line(input)) {
            None => None,
            Some(block) => {
                let end = line_len(input) + block + announced_len(after_line(input));
                if end <= input.len() {
                    Some(end)
                } else {
                    None
                }
            },
        }
    }
}

/// Decides whether `input[from..to]` holds nothing but carriage returns and
/// line feeds.
fn is_blank(input: &[u8], from: usize, to: usize) -> (r: bool)
    requires
        from <= to <= input@.len(),
    ensures
        r == blank_line(input@.subrange(from as int, to as int)),
{
    let ghost line = input@.subrange(from as int, to as int);
    let mut i: usize = from;
    while i < to
        invariant
            from <= i <= to <= input@.len(),
            line == input@.subrange(from as int, to as int),
            forall|j: int| 0 <= j < i - from ==> line[j] == 0x0D || line[j] == 0x0A,
        decreases to - i,
    {
        if input[i] != 0x0D && input[i] != 0x0A {
            assert(line[i - from] == input@[i as int]);
            return false;
        }
        i += 1;
    }
    true
}

/// Where the header block that starts at `from` ends, once all its lines
/// have come to their end.
fn block_end(input: &[u8], from: usize) -> (r: Option<usize>)
    requires
        from <= input@.len(),
    ensures
        match r {
            Some(end) => from <= end <= input@.len() && block_len(input@.skip(from as int))
                == Some((end - from) as nat),
            None => block_len(input@.skip(from as int)) is None,
        },
{
    let mut pos: usize = from;
    loop
        invariant
            from <= pos <= input@.len(),
            block_len(input@.skip(from as int)) == match block_len(input@.skip(pos as int)) {
                Some(m) => Some(((pos - from) + m) as nat),
                None => None,
            },
        decreases input@.len() - pos,
    {
        let end = line_end(input, pos);
        proof {
            lemma_line_len(input@.skip(pos as int));
        }
        if end == pos || input[end - 1] != 0x0A {
            return None;
        }
        if is_blank(input, pos, end) {
            return Some(end);
        }
        pos = end;
    }
}

/// The length of the body that the header block at `from` announces.
fn announced(input: &[u8], from: usize) -> (n: usize)
    requires
        from <= input@.len(),
    ensures
        n == announced_len(input@.skip(from as int)),
{
    let headers = match read_headers(input, from) {
        Ok((headers, _)) => headers,
        Err(_) => {
            return 0;
        },
    };
    let value = match headers.get("Content-Length") {
        Some(value) => value,
        None => {
            return 0;
        },
    };
    let digits = chars_of(value.as_str());
    match parse_unsigned(digits.as_slice()) {
        Some(n) => n,
        None => 0,
    }
}

/// Says how long the request or response at the start of `input` is, once
/// all of it has arrived, and `None` as long as more has to be read.
pub fn frame_end(input: &[u8]) -> (r: Option<usize>)
    ensures
        match r {
            Some(end) => end <= input@.len() && frame_len(input@) == Some(end as nat),
            None => frame_len(input@) is None,
        },
{
    assert(input@.skip(0) =~= input@);
    let first = line_end(input, 0);
    if first == 0 || input[first - 1] != 0x0A {
        return None;
    }
    let head = match block_end(input, first) {
        Some(head) => head,
        None => {
            return None;
        },
    };
    let body = announced(input, first);
    if body <= input.len() - head {
        Some(head + body)
    } else {
        None
    }
}


/// A line that has come to its end stays what it is when bytes are put
/// behind it.
pub proof fn lemma_line_extend(a: Seq<u8>, b: Seq<u8>)
    requires
        line_complete(a),
    ensures
        line_len(a + b) == line_len(a),
        line_complete(a + b),
        (a + b).take(line_len(a) as int) == a.take(line_len(a) as int),
        after_line(a + b) == after_line(a) + b,
    decreases a.len(),
{
    lemma_line_len(a);
    if a[0] != 0x0A {
        let rest = a.drop_first();
        lemma_line_len(rest);
        assert((a + b).drop_first() =~= rest + b);
        assert(rest[line_len(rest) - 1] == a[line_len(a) - 1]);
        lemma_line_extend(rest, b);
    }
    assert((a + b).take(line_len(a) as int) =~= a.take(line_len(a) as int));
    assert((a + b).skip(line_len(a) as int) =~= a.skip(line_len(a) as int) + b);
}

/// A line that has come to its end is the first line of every prefix that
/// holds it.
pub proof fn lemma_line_prefix(a: Seq<u8>, n: int)
    requires
        line_complete(a),
        line_len(a) <= n <= a.len(),
    ensures
        line_len(a.take(n)) == line_len(a),
        line_complete(a.take(n)),
    decreases a.len(),
{
    lemma_line_len(a);
    if a[0] != 0x0A {
        let rest = a.drop_first();
        lemma_line_len(rest);
        assert(a.take(n).drop_first() =~= rest.take(n - 1));
        assert(rest[line_len(rest) - 1] == a[line_len(a) - 1]);
        lemma_line_prefix(rest, n - 1);
    }
}

/// A text is empty once its line ending is taken off exactly where it holds
/// nothing but carriage returns and line feeds.
pub proof fn lemma_strip_eol_empty(s: Seq<char>)
    ensures
        strip_eol(s).len() == 0 <==> forall|i: int| 0 <= i < s.len() ==> is_eol(#[trigger] s[i]),
    decreases s.len(),
{
    if s.len() > 0 && is_eol(s.last()) {
        lemma_strip_eol_empty(s.drop_last());
        if strip_eol(s).len() == 0 {
            assert forall|i: int| 0 <= i < s.len() implies is_eol(#[trigger] s[i]) by {
                if i < s.len() - 1 {
                    assert(s[i] == s.drop_last()[i]);
                }
            }
        } else {
            let j = choose|j: int| 0 <= j < s.drop_last().len() && !is_eol(s.drop_last()[j]);
            assert(!is_eol(s[j]));
        }
    }
}

/// A line is blank as bytes exactly where it is valid UTF-8 and blank as
/// text.
pub proof fn lemma_blank_line(raw: Seq<u8>)
    ensures
        blank_line(raw) <==> valid_utf8(raw) && strip_eol(decode_utf8(raw)).len() == 0,
{
    if blank_line(raw) {
        let chars = Seq::new(
            raw.len(),
            |i: int|
                if raw[i] == 0x0D {
                    '\r'
                } else {
                    '\n'
                },
        );
        assert(is_ascii_chars(chars));
        is_ascii_chars_encode_utf8(chars);
        assert(encode_utf8(chars) =~= raw);
        encode_utf8_valid_utf8(chars);
        encode_utf8_decode_utf8(chars);
        lemma_strip_eol_empty(chars);
    }
    if valid_utf8(raw) && strip_eol(decode_utf8(raw)).len() == 0 {
        let chars = decode_utf8(raw);
        lemma_strip_eol_empty(chars);
        decode_utf8_encode_utf8(raw);
        assert(is_ascii_chars(chars)) by {
            assert forall|i: int| 0 <= i < chars.len() implies '\0' <= #[trigger] chars[i]
                <= '\u{7f}' by {
                assert(is_eol(chars[i]));
            }
        }
        is_ascii_chars_encode_utf8(chars);
        assert forall|i: int| 0 <= i < raw.len() implies raw[i] == 0x0D || raw[i] == 0x0A by {
            assert(is_eol(chars[i]));
            assert(chars[i] as u8 == raw[i]);
        }
    }
}


/// What is read from a header block whose lines have all come to their end
/// does not depend on what follows the block.
pub proof fn lemma_block_extend(a: Seq<u8>, b: Seq<u8>, headers: Map<Seq<char>, Seq<char>>)
    requires
        block_len(a) is Some,
    ensures
        block_len(a) == block_len(a + b),
        block_len(a).unwrap() <= a.len(),
        header_block(a + b, headers) == match header_block(a, headers) {
            Ok((read, rest)) => Ok::<(Map<Seq<char>, Seq<char>>, Seq<u8>), Error>(
                (read, rest + b),
            ),
            Err(e) => Err::<(Map<Seq<char>, Seq<char>>, Seq<u8>), Error>(e),
        },
        header_block(a, headers) is Ok ==> header_block(a, headers).unwrap().1 == a.skip(
            block_len(a).unwrap() as int,
        ),
    decreases a.len(),
{
    let n = line_len(a);
    let raw = a.take(n as int);
    lemma_line_len(a);
    lemma_line_extend(a, b);
    lemma_blank_line(raw);
    if !blank_line(raw) {
        let rest = a.skip(n as int);
        assert((a + b).skip(n as int) =~= rest + b);
        if valid_utf8(raw) {
            match header_parts(strip_eol(decode_utf8(raw))) {
                Some((key, value)) => {
                    lemma_block_extend(rest, b, headers.insert(key, value));
                },
                None => {
                    lemma_block_extend(rest, b, headers);
                },
            }
        } else {
            lemma_block_extend(rest, b, headers);
        }
        assert(rest.skip(block_len(rest).unwrap() as int) =~= a.skip(block_len(a).unwrap() as int));
    }
}

/// A header block whose lines have all come to their end is the header block
/// of every prefix that holds it.
pub proof fn lemma_block_prefix(a: Seq<u8>, n: int)
    requires
        block_len(a) is Some,
        block_len(a).unwrap() <= n <= a.len(),
    ensures
        block_len(a.take(n)) == block_len(a),
    decreases a.len(),
{
    let l = line_len(a);
    lemma_line_len(a);
    if !blank_line(a.take(l as int)) {
        let rest = a.skip(l as int);
        lemma_line_prefix(a, n);
        assert(a.take(n).take(l as int) =~= a.take(l as int));
        assert(a.take(n).skip(l as int) =~= rest.take(n - l));
        lemma_block_prefix(rest, n - l);
    } else {
        lemma_line_prefix(a, n);
        assert(a.take(n).take(l as int) =~= a.take(l as int));
    }
}

/// What follows a whole frame has no part in how the frame is read: a frame
/// that is cut off where `frame_len` says is a whole frame of that length,
/// and is read as the same request and as the same response whatever bytes
/// are put behind it.
pub proof fn lemma_frame_is_whole(input: Seq<u8>, more: Seq<u8>)
    requires
        frame_len(input) is Some,
    ensures
        ({
            let frame = input.take(frame_len(input).unwrap() as int);
            &&& frame_len(frame) == Some(frame.len())
            &&& parse_request_spec(frame + more) == parse_request_spec(frame)
            &&& parse_response_spec(frame + more) == parse_response_spec(frame)
        }),
{
    let end = frame_len(input).unwrap() as int;
    let first = line_len(input) as int;
    let behind = after_line(input);
    let block = block_len(behind).unwrap() as int;
    let body = announced_len(behind) as int;
    let frame = input.take(end);
    let none = Map::<Seq<char>, Seq<char>>::empty();
    lemma_line_len(input);
    lemma_block_extend(behind, Seq::empty(), none);
    lemma_line_prefix(input, end);
    assert(frame.take(first) =~= input.take(first));
    let head = frame.skip(first);
    assert(head =~= behind.take(block + body));
    lemma_block_prefix(behind, block + body);
    assert(behind =~= head + behind.skip(block + body));
    lemma_block_extend(head, behind.skip(block + body), none);
    assert(announced_len(head) == body);
    lemma_line_extend(frame, more);
    assert((frame + more).take(first) =~= frame.take(first));
    lemma_block_extend(head, more, none);
    if header_block(head, none) is Ok {
        let (headers, rest) = header_block(head, none).unwrap();
        assert(rest.len() == body);
        assert((rest + more).take(body) =~= rest.take(body));
    }
}


} // verus!
