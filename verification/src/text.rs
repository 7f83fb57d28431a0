//! Character-level building blocks of the wire grammar: whitespace, trimming,
//! tokens, the header separator and decimal numbers.

use vstd::prelude::*;
use vstd::utf8::encode_utf8_decode_utf8;

verus! {

/// The characters with the Unicode property `White_Space`.
pub open spec fn is_whitespace(c: char) -> bool {
    let u = c as u32;
    ||| 0x09 <= u <= 0x0D
    ||| u == 0x20
    ||| u == 0x85
    ||| u == 0xA0
    ||| u == 0x1680
    ||| 0x2000 <= u <= 0x200A
    ||| u == 0x2028
    ||| u == 0x2029
    ||| u == 0x202F
    ||| u == 0x205F
    ||| u == 0x3000
}

/// A carriage return or a line feed.
pub open spec fn is_eol(c: char) -> bool {
    c == '\r' || c == '\n'
}

/// `s` without its leading whitespace.
pub open spec fn trim_start(s: Seq<char>) -> Seq<char>
    decreases s.len(),
{
    if s.len() > 0 && is_whitespace(s[0]) {
        trim_start(s.drop_first())
    } else {
        s
    }
}

/// `s` without its trailing whitespace.
pub open spec fn trim_end(s: Seq<char>) -> Seq<char>
    decreases s.len(),
{
    if s.len() > 0 && is_whitespace(s.last()) {
        trim_end(s.drop_last())
    } else {
        s
    }
}

/// `s` without the whitespace on either side.
pub open spec fn trim(s: Seq<char>) -> Seq<char> {
    trim_end(trim_start(s))
}

/// `s` without the carriage returns and line feeds at its end.
pub open spec fn strip_eol(s: Seq<char>) -> Seq<char>
    decreases s.len(),
{
    if s.len() > 0 && is_eol(s.last()) {
        strip_eol(s.drop_last())
    } else {
        s
    }
}

/// How many characters stand before the first whitespace of `s`.
pub open spec fn token_len(s: Seq<char>) -> nat
    decreases s.len(),
{
    if s.len() > 0 && !is_whitespace(s[0]) {
        1 + token_len(s.drop_first())
    } else {
        0
    }
}

/// The first maximal run of characters of `s` that are no whitespace.
pub open spec fn first_token(s: Seq<char>) -> Option<Seq<char>> {
    let t = trim_start(s);
    if t.len() == 0 {
        None
    } else {
        Some(t.take(token_len(t) as int))
    }
}

/// What follows the first token of `s`.
pub open spec fn after_first_token(s: Seq<char>) -> Seq<char> {
    let t = trim_start(s);
    t.skip(token_len(t) as int)
}

/// The index of the first `c` in `s`, or the length of `s` where it holds none.
pub open spec fn position(s: Seq<char>, c: char) -> nat
    decreases s.len(),
{
    if s.len() == 0 || s[0] == c {
        0
    } else {
        1 + position(s.drop_first(), c)
    }
}

/// Key and value of a header line: what stands before and after its first
/// colon, each trimmed. A line without a colon has neither.
pub open spec fn header_parts(line: Seq<char>) -> Option<(Seq<char>, Seq<char>)> {
    let i = position(line, ':') as int;
    if i == line.len() {
        None
    } else {
        Some((trim(line.take(i)), trim(line.skip(i + 1))))
    }
}

/// An ASCII decimal digit.
pub open spec fn is_digit(c: char) -> bool {
    0x30 <= c as u32 <= 0x39
}

/// The number a decimal digit stands for.
pub open spec fn digit_value(c: char) -> nat {
    (c as u32 - 0x30) as nat
}

/// Every character of `s` is a decimal digit.
pub open spec fn all_digits(s: Seq<char>) -> bool {
    forall|i: int| 0 <= i < s.len() ==> is_digit(#[trigger] s[i])
}

/// The number that a run of decimal digits denotes, most significant first.
pub open spec fn digits_value(s: Seq<char>) -> nat
    decreases s.len(),
{
    if s.len() == 0 {
        0
    } else {
        10 * digits_value(s.drop_last()) + digit_value(s.last())
    }
}

/// The number that `s` denotes as an unsigned decimal: an optional `+`, then
/// one digit or more. Anything else denotes nothing.
pub open spec fn unsigned_value(s: Seq<char>) -> Option<nat> {
    let d = if s.len() > 0 && s[0] == '+' {
        s.drop_first()
    } else {
        s
    };
    if d.len() > 0 && all_digits(d) {
        Some(digits_value(d))
    } else {
        None
    }
}

/// The digit that stands for `d`.
pub open spec fn digit_char(d: nat) -> char {
    if d == 0 {
        '0'
    } else if d == 1 {
        '1'
    } else if d == 2 {
        '2'
    } else if d == 3 {
        '3'
    } else if d == 4 {
        '4'
    } else if d == 5 {
        '5'
    } else if d == 6 {
        '6'
    } else if d == 7 {
        '7'
    } else if d == 8 {
        '8'
    } else {
        '9'
    }
}

/// The decimal digits of `n`, without leading zeros.
pub open spec fn decimal_digits(n: nat) -> Seq<char>
    decreases n,
{
    if n < 10 {
        seq![digit_char(n)]
    } else {
        decimal_digits(n / 10).push(digit_char(n % 10))
    }
}

/// Decides whether `c` is whitespace.
pub fn whitespace(c: char) -> (r: bool)
    ensures
        r == is_whitespace(c),
{
    let u: u32 = c as u32;
    (0x09 <= u && u <= 0x0D) || u == 0x20 || u == 0x85 || u == 0xA0 || u == 0x1680 || (0x2000 <= u
        && u <= 0x200A) || u == 0x2028 || u == 0x2029 || u == 0x202F || u == 0x205F || u == 0x3000
}

/// The characters of `s`, one by one.
pub fn chars_of(s: &str) -> (v: Vec<char>)
    ensures
        v@ == s@,
{
    let mut v: Vec<char> = Vec::new();
    for c in it: s.chars()
        invariant
            v@ == it.seq().take(it.index() as int),
    {
        v.push(c);
    }
    v
}

/// The bounds of `s[from..to]` once trimmed.
pub(crate) fn trim_bounds(s: &[char], from: usize, to: usize) -> (r: (usize, usize))
    requires
        from <= to <= s@.len(),
    ensures
        from <= r.0 <= r.1 <= to,
        s@.subrange(r.0 as int, r.1 as int) == trim(s@.subrange(from as int, to as int)),
{
    let mut a: usize = from;
    while a < to && whitespace(s[a])
        invariant
            from <= a <= to <= s@.len(),
            trim_start(s@.subrange(a as int, to as int)) == trim_start(
                s@.subrange(from as int, to as int),
            ),
        decreases to - a,
    {
        assert(s@.subrange(a as int, to as int).drop_first() =~= s@.subrange(
            a as int + 1,
            to as int,
        ));
        a += 1;
    }
    let mut b: usize = to;
    while b > a && whitespace(s[b - 1])
        invariant
            a <= b <= to <= s@.len(),
            trim_end(s@.subrange(a as int, b as int)) == trim_end(s@.subrange(a as int, to as int)),
        decreases b - a,
    {
        assert(s@.subrange(a as int, b as int).drop_last() =~= s@.subrange(
            a as int,
            b as int - 1,
        ));
        b -= 1;
    }
    (a, b)
}

/// The length of `s` once the carriage returns and line feeds at its end are
/// taken off.
pub(crate) fn strip_eol_len(s: &[char]) -> (n: usize)
    ensures
        n <= s@.len(),
        s@.take(n as int) == strip_eol(s@),
{
    let mut n: usize = s.len();
    assert(s@.take(n as int) =~= s@);
    while n > 0 && (s[n - 1] == '\r' || s[n - 1] == '\n')
        invariant
            n <= s@.len(),
            strip_eol(s@.take(n as int)) == strip_eol(s@),
        decreases n,
    {
        assert(s@.take(n as int).drop_last() =~= s@.take(n as int - 1));
        n -= 1;
    }
    n
}

/// The bounds of the first token of `s[from..]`, if it has one.
pub(crate) fn token_bounds(s: &[char], from: usize) -> (r: Option<(usize, usize)>)
    requires
        from <= s@.len(),
    ensures
        match r {
            None => first_token(s@.skip(from as int)) is None,
            Some((a, b)) => {
                &&& from <= a < b <= s@.len()
                &&& first_token(s@.skip(from as int)) == Some(s@.subrange(a as int, b as int))
                &&& after_first_token(s@.skip(from as int)) == s@.skip(b as int)
            },
        },
{
    let mut a: usize = from;
    while a < s.len() && whitespace(s[a])
        invariant
            from <= a <= s@.len(),
            trim_start(s@.skip(a as int)) == trim_start(s@.skip(from as int)),
        decreases s@.len() - a,
    {
        assert(s@.skip(a as int).drop_first() =~= s@.skip(a as int + 1));
        a += 1;
    }
    if a == s.len() {
        return None;
    }
    let mut b: usize = a;
    while b < s.len() && !whitespace(s[b])
        invariant
            a <= b <= s@.len(),
            token_len(s@.skip(a as int)) == (b - a) + token_len(s@.skip(b as int)),
        decreases s@.len() - b,
    {
        assert(s@.skip(b as int).drop_first() =~= s@.skip(b as int + 1));
        b += 1;
    }
    assert(s@.skip(a as int).take(b - a) =~= s@.subrange(a as int, b as int));
    assert(s@.skip(a as int).skip(b - a) =~= s@.skip(b as int));
    Some((a, b))
}

/// The index of the first `c` in `s[..to]`, if there is one.
pub(crate) fn find(s: &[char], to: usize, c: char) -> (r: Option<usize>)
    requires
        to <= s@.len(),
    ensures
        match r {
            None => position(s@.take(to as int), c) == to,
            Some(i) => i < to && position(s@.take(to as int), c) == i,
        },
{
    let mut i: usize = 0;
    while i < to && s[i] != c
        invariant
            i <= to <= s@.len(),
            position(s@.take(to as int), c) == i + position(s@.subrange(i as int, to as int), c),
        decreases to - i,
    {
        assert(s@.subrange(i as int, to as int).drop_first() =~= s@.subrange(
            i as int + 1,
            to as int,
        ));
        i += 1;
    }
    if i < to {
        Some(i)
    } else {
        None
    }
}

/// The number that `s` denotes as an unsigned decimal, where it fits the
/// machine word.
pub open spec fn word_value(s: Seq<char>) -> Option<usize> {
    match unsigned_value(s) {
        Some(n) => if n <= usize::MAX {
            Some(n as usize)
        } else {
            None
        },
        None => None,
    }
}

/// A run of digits denotes at least what any of its prefixes denotes.
pub proof fn lemma_digits_value_prefix(s: Seq<char>, k: int)
    requires
        0 <= k <= s.len(),
    ensures
        digits_value(s.take(k)) <= digits_value(s),
    decreases s.len(),
{
    if k == s.len() {
        assert(s.take(k) =~= s);
    } else {
        assert(s.drop_last().take(k) =~= s.take(k));
        lemma_digits_value_prefix(s.drop_last(), k);
    }
}

/// The digits of a number are digits, and denote that number.
pub proof fn lemma_decimal_digits(n: nat)
    ensures
        decimal_digits(n).len() > 0,
        all_digits(decimal_digits(n)),
        digits_value(decimal_digits(n)) == n,
        unsigned_value(decimal_digits(n)) == Some(n),
    decreases n,
{
    let s = decimal_digits(n);
    if n < 10 {
        assert(s.drop_last() =~= Seq::<char>::empty());
        assert(digits_value(s) == 10 * digits_value(s.drop_last()) + digit_value(s.last()));
    } else {
        lemma_decimal_digits(n / 10);
        let head = decimal_digits(n / 10);
        assert(s.drop_last() =~= head);
        assert(digit_value(digit_char(n % 10)) == n % 10);
        assert forall|i: int| 0 <= i < s.len() implies is_digit(#[trigger] s[i]) by {
            if i < head.len() {
                assert(s[i] == head[i]);
            }
        }
        assert(s[0] == head[0]);
    }
    assert(is_digit(s[0]));
}

/// The number that `s` denotes as an unsigned decimal, where it denotes one
/// that fits the machine word.
pub fn parse_unsigned(s: &[char]) -> (r: Option<usize>)
    ensures
        r == word_value(s@),
{
    let to: usize = s.len();
    let mut i: usize = 0;
    if i < to && s[i] == '+' {
        i += 1;
    }
    let start: usize = i;
    let ghost run = s@.skip(start as int);
    assert(run =~= if s@.len() > 0 && s@[0] == '+' {
        s@.drop_first()
    } else {
        s@
    });
    if start == to {
        return None;
    }
    let mut acc: usize = 0;
    while i < to
        invariant
            start <= i <= to == s@.len(),
            run == s@.skip(start as int),
            unsigned_value(s@) == if all_digits(run) {
                Some(digits_value(run))
            } else {
                None::<nat>
            },
            all_digits(run.take(i - start)),
            acc == digits_value(run.take(i - start)),
        decreases to - i,
    {
        let u: u32 = s[i] as u32;
        if u < 0x30 || u > 0x39 {
            assert(!is_digit(run[i - start]));
            return None;
        }
        let d: usize = (u - 0x30) as usize;
        proof {
            assert(run.take(i - start + 1).drop_last() =~= run.take(i - start));
            assert(digits_value(run.take(i - start + 1)) == 10 * acc + d);
            lemma_digits_value_prefix(run, i - start + 1);
        }
        if acc > (usize::MAX - d) / 10 {
            return None;
        }
        acc = acc * 10 + d;
        i += 1;
    }
    assert(run.take(i - start) =~= run);
    Some(acc)
}

/// The digit for `d`, as text.
fn digit_text(d: usize) -> (r: &'static str)
    requires
        d < 10,
    ensures
        r@ == seq![digit_char(d as nat)],
{
    proof {
        reveal_strlit("0");
        reveal_strlit("1");
        reveal_strlit("2");
        reveal_strlit("3");
        reveal_strlit("4");
        reveal_strlit("5");
        reveal_strlit("6");
        reveal_strlit("7");
        reveal_strlit("8");
        reveal_strlit("9");
    }
    let r = if d == 0 {
        "0"
    } else if d == 1 {
        "1"
    } else if d == 2 {
        "2"
    } else if d == 3 {
        "3"
    } else if d == 4 {
        "4"
    } else if d == 5 {
        "5"
    } else if d == 6 {
        "6"
    } else if d == 7 {
        "7"
    } else if d == 8 {
        "8"
    } else {
        "9"
    };
    assert(r@ =~= seq![digit_char(d as nat)]);
    r
}

/// `n` in decimal digits.
pub fn format_unsigned(n: usize) -> (r: String)
    ensures
        r@ == decimal_digits(n as nat),
    decreases n,
{
    if n < 10 {
        digit_text(n).to_owned()
    } else {
        let mut r = format_unsigned(n / 10);
        r.append(digit_text(n % 10));
        assert(r@ =~= decimal_digits(n as nat));
        r
    }
}


/// Decides whether `a` and `b` hold the same characters.
pub fn same_text(a: &str, b: &str) -> (r: bool)
    ensures
        r == (a@ == b@),
{
    let x = a.as_bytes();
    let y = b.as_bytes();
    proof {
        encode_utf8_decode_utf8(a@);
        encode_utf8_decode_utf8(b@);
    }
    if x.len() != y.len() {
        return false;
    }
    let mut i: usize = 0;
    while i < x.len()
        invariant
            i <= x@.len() == y@.len(),
            forall|j: int| 0 <= j < i ==> x@[j] == y@[j],
            a@ == b@ ==> x@ == y@,
        decreases x@.len() - i,
    {
        if x[i] != y[i] {
            return false;
        }
        i += 1;
    }
    assert(x@ =~= y@);
    true
}


/// `s` holds no `c`.
pub open spec fn lacks(s: Seq<char>, c: char) -> bool {
    forall|i: int| 0 <= i < s.len() ==> s[i] != c
}

/// `s` neither starts nor ends with whitespace.
pub open spec fn is_trimmed(s: Seq<char>) -> bool {
    s.len() > 0 ==> !is_whitespace(s[0]) && !is_whitespace(s.last())
}

/// `s` holds no whitespace.
pub open spec fn is_token(s: Seq<char>) -> bool {
    forall|i: int| 0 <= i < s.len() ==> !is_whitespace(#[trigger] s[i])
}

/// Trimming what is trimmed changes nothing.
pub proof fn lemma_trim_trimmed(s: Seq<char>)
    requires
        is_trimmed(s),
    ensures
        trim(s) == s,
{
}

/// A space before what is trimmed is trimmed away.
pub proof fn lemma_trim_after_space(s: Seq<char>)
    requires
        is_trimmed(s),
    ensures
        trim(seq![' '] + s) == s,
{
    let spaced = seq![' '] + s;
    assert(spaced[0] == ' ');
    assert(is_whitespace(' '));
    assert(spaced.drop_first() =~= s);
    assert(trim_start(spaced) == trim_start(s));
    assert(trim_start(s) == s);
}

/// What is trimmed is trimmed, and holds no character that was not there.
pub proof fn lemma_trim_is_trimmed(s: Seq<char>, c: char)
    ensures
        is_trimmed(trim(s)),
        lacks(s, c) ==> lacks(trim(s), c),
{
    lemma_trim_start(s, c);
    lemma_trim_end(trim_start(s), c);
}

proof fn lemma_trim_start(s: Seq<char>, c: char)
    ensures
        trim_start(s).len() > 0 ==> !is_whitespace(trim_start(s)[0]),
        lacks(s, c) ==> lacks(trim_start(s), c),
    decreases s.len(),
{
    if s.len() > 0 && is_whitespace(s[0]) {
        lemma_trim_start(s.drop_first(), c);
        if lacks(s, c) {
            assert forall|i: int| 0 <= i < s.drop_first().len() implies s.drop_first()[i] != c by {
                assert(s.drop_first()[i] == s[i + 1]);
            }
        }
    }
}

proof fn lemma_trim_end(s: Seq<char>, c: char)
    ensures
        trim_end(s).len() > 0 ==> !is_whitespace(trim_end(s).last()) && trim_end(s)[0] == s[0],
        lacks(s, c) ==> lacks(trim_end(s), c),
    decreases s.len(),
{
    if s.len() > 0 && is_whitespace(s.last()) {
        lemma_trim_end(s.drop_last(), c);
        if lacks(s, c) {
            assert forall|i: int| 0 <= i < s.drop_last().len() implies s.drop_last()[i] != c by {
                assert(s.drop_last()[i] == s[i]);
            }
        }
    }
}

/// What `strip_eol` leaves is the start of the text.
pub proof fn lemma_strip_eol_prefix(s: Seq<char>)
    ensures
        strip_eol(s).len() <= s.len(),
        strip_eol(s) == s.take(strip_eol(s).len() as int),
    decreases s.len(),
{
    if s.len() > 0 && is_eol(s.last()) {
        lemma_strip_eol_prefix(s.drop_last());
        assert(s.drop_last().take(strip_eol(s).len() as int) =~= s.take(strip_eol(s).len() as int));
    } else {
        assert(s.take(s.len() as int) =~= s);
    }
}

/// Before the place that `position` gives there is no `c`.
pub proof fn lemma_position_first(s: Seq<char>, c: char)
    ensures
        position(s, c) <= s.len(),
        lacks(s.take(position(s, c) as int), c),
    decreases s.len(),
{
    if s.len() == 0 || s[0] == c {
    } else {
        lemma_position_first(s.drop_first(), c);
        let p = position(s, c) as int;
        assert forall|i: int| 0 <= i < s.take(p).len() implies s.take(p)[i] != c by {
            if i > 0 {
                assert(s.take(p)[i] == s.drop_first().take(p - 1)[i - 1]);
            }
        }
    }
}

/// The first `c` of `a + [c] + b` stands behind `a`, where `a` holds none.
pub proof fn lemma_position(a: Seq<char>, c: char, b: Seq<char>)
    requires
        lacks(a, c),
    ensures
        position(a + seq![c] + b, c) == a.len(),
    decreases a.len(),
{
    let whole = a + seq![c] + b;
    if a.len() == 0 {
        assert(whole[0] == c);
    } else {
        assert(whole[0] == a[0]);
        assert(whole.drop_first() =~= a.drop_first() + seq![c] + b);
        assert forall|i: int| 0 <= i < a.drop_first().len() implies a.drop_first()[i] != c by {
            assert(a.drop_first()[i] == a[i + 1]);
        }
        lemma_position(a.drop_first(), c, b);
    }
}

/// A line ending behind a text that does not end in one is all that
/// `strip_eol` takes off.
pub proof fn lemma_strip_eol(s: Seq<char>)
    requires
        s.len() > 0 ==> !is_eol(s.last()),
    ensures
        strip_eol(s + seq!['\r', '\n']) == s,
{
    let whole = s + seq!['\r', '\n'];
    let shorter = s + seq!['\r'];
    assert(whole.drop_last() =~= shorter);
    assert(shorter.drop_last() =~= s);
    assert(strip_eol(whole) == strip_eol(shorter));
    assert(strip_eol(shorter) == strip_eol(s));
}

/// A token that is followed by whitespace, or by nothing, is what
/// `first_token` finds behind any run of whitespace, and what follows the
/// token is what remains.
pub proof fn lemma_first_token(gap: Seq<char>, token: Seq<char>, rest: Seq<char>)
    requires
        forall|i: int| 0 <= i < gap.len() ==> is_whitespace(#[trigger] gap[i]),
        token.len() > 0,
        is_token(token),
        rest.len() > 0 ==> is_whitespace(rest[0]),
    ensures
        first_token(gap + token + rest) == Some(token),
        after_first_token(gap + token + rest) == rest,
{
    lemma_skip_gap(gap, token + rest);
    assert(gap + token + rest =~= gap + (token + rest));
    assert((token + rest)[0] == token[0]);
    lemma_token_len(token, rest);
    assert((token + rest).take(token.len() as int) =~= token);
    assert((token + rest).skip(token.len() as int) =~= rest);
}

proof fn lemma_skip_gap(gap: Seq<char>, rest: Seq<char>)
    requires
        forall|i: int| 0 <= i < gap.len() ==> is_whitespace(#[trigger] gap[i]),
        rest.len() > 0 ==> !is_whitespace(rest[0]),
    ensures
        trim_start(gap + rest) == rest,
    decreases gap.len(),
{
    if gap.len() == 0 {
        assert(gap + rest =~= rest);
    } else {
        assert((gap + rest)[0] == gap[0]);
        assert((gap + rest).drop_first() =~= gap.drop_first() + rest);
        assert forall|i: int| 0 <= i < gap.drop_first().len() implies is_whitespace(
            #[trigger] gap.drop_first()[i],
        ) by {
            assert(gap.drop_first()[i] == gap[i + 1]);
        }
        lemma_skip_gap(gap.drop_first(), rest);
    }
}

proof fn lemma_token_len(token: Seq<char>, rest: Seq<char>)
    requires
        is_token(token),
        rest.len() > 0 ==> is_whitespace(rest[0]),
    ensures
        token_len(token + rest) == token.len(),
    decreases token.len(),
{
    if token.len() == 0 {
        assert(token + rest =~= rest);
    } else {
        assert((token + rest)[0] == token[0]);
        assert((token + rest).drop_first() =~= token.drop_first() + rest);
        assert forall|i: int| 0 <= i < token.drop_first().len() implies !is_whitespace(
            #[trigger] token.drop_first()[i],
        ) by {
            assert(token.drop_first()[i] == token[i + 1]);
        }
        lemma_token_len(token.drop_first(), rest);
    }
}


} // verus!

