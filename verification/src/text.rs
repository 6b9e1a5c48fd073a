//! Text: UTF-8 strings, their bytes and their lines.

use vstd::prelude::*;
use vstd::string::*;
use vstd::utf8::*;

verus! {

/// Line feed.
pub const LF: u8 = 10;

/// Carriage return.
pub const CR: u8 = 13;

/// The error of `std::str::from_utf8`.
#[verifier::external_type_specification]
#[verifier::external_body]
pub struct ExUtf8Error(std::str::Utf8Error);

/// Calls `std::str::from_utf8`, which accepts exactly the byte slices that are
/// well-formed UTF-8, and gives the string that has these bytes.
#[verifier::external_body]
pub(crate) fn bytes_to_str(bytes: &[u8]) -> (r: Result<&str, std::str::Utf8Error>)
    ensures
        r is Ok <==> valid_utf8(bytes@),
        r matches Ok(text) ==> text@ == decode_utf8(bytes@),
{
    std::str::from_utf8(bytes)
}

/// The place of the first `byte` in `s`, or the length of `s` if there is none.
pub open spec fn find(s: Seq<u8>, byte: u8) -> int
    decreases s.len(),
{
    if s.len() == 0 || s[0] == byte {
        0
    } else {
        1 + find(s.drop_first(), byte)
    }
}

pub proof fn lemma_find(s: Seq<u8>, byte: u8)
    ensures
        0 <= find(s, byte) <= s.len(),
        forall|j: int| 0 <= j < find(s, byte) ==> s[j] != byte,
        find(s, byte) < s.len() ==> s[find(s, byte)] == byte,
    decreases s.len(),
{
    if s.len() != 0 && s[0] != byte {
        lemma_find(s.drop_first(), byte);
        assert forall|j: int| 0 <= j < find(s, byte) implies s[j] != byte by {
            if j > 0 {
                assert(s[j] == s.drop_first()[j - 1]);
            }
        }
    }
}

pub proof fn lemma_find_is(s: Seq<u8>, byte: u8, i: int)
    requires
        0 <= i <= s.len(),
        forall|j: int| 0 <= j < i ==> s[j] != byte,
        i < s.len() ==> s[i] == byte,
    ensures
        find(s, byte) == i,
{
    lemma_find(s, byte);
    let n = find(s, byte);
    if n < i {
        assert(s[n] != byte);
    }
}

/// A line without the carriage return that belongs to its line feed.
pub open spec fn without_cr(line: Seq<u8>) -> Seq<u8> {
    if line.len() > 0 && line.last() == CR {
        line.drop_last()
    } else {
        line
    }
}

/// The first line of a non-empty text, without its line ending.
pub open spec fn first_line(s: Seq<u8>) -> Seq<u8> {
    let n = find(s, LF);
    if n == s.len() {
        s
    } else {
        without_cr(s.take(n))
    }
}

/// What follows the first line of a text and its line ending.
pub open spec fn other_lines(s: Seq<u8>) -> Seq<u8> {
    let n = find(s, LF);
    if n >= s.len() {
        Seq::empty()
    } else {
        s.skip(n + 1)
    }
}

/// The lines of a text. A line ends with a line feed, or with a carriage
/// return and a line feed; the last line ending is optional.
pub open spec fn lines(s: Seq<u8>) -> Seq<Seq<u8>>
    decreases s.len(),
{
    if s.len() == 0 {
        Seq::empty()
    } else {
        proof {
            lemma_find(s, LF);
        }
        seq![first_line(s)] + lines(other_lines(s))
    }
}

/// A control character: one of Unicode's general category Cc.
pub open spec fn is_control(c: char) -> bool {
    c <= '\u{1f}' || '\u{7f}' <= c <= '\u{9f}'
}

pub open spec fn has_control(s: Seq<char>) -> bool {
    exists|i: int| 0 <= i < s.len() && is_control(#[trigger] s[i])
}

/// Whether any character of a string is a control character.
pub fn any_control(s: &str) -> (r: bool)
    ensures
        r == has_control(s@),
{
    let mut found: bool = false;
    for c in it: s.chars()
        invariant
            it.seq() == s@,
            found == exists|i: int| 0 <= i < it.index() && is_control(#[trigger] s@[i]),
    {
        if c <= '\u{1f}' || ('\u{7f}' <= c && c <= '\u{9f}') {
            found = true;
            assert(is_control(s@[it.index() as int]));
        }
    }
    found
}

/// Splits a string at the first occurrence of an ASCII byte, which belongs to
/// neither part.
pub fn split_once(s: &str, byte: u8) -> (r: Option<(&str, &str)>)
    requires
        byte < 128,
    ensures
        match r {
            Some((head, tail)) => {
                let n = find(encode_utf8(s@), byte);
                &&& n < encode_utf8(s@).len()
                &&& encode_utf8(head@) == encode_utf8(s@).take(n)
                &&& encode_utf8(tail@) == encode_utf8(s@).skip(n + 1)
            },
            None => find(encode_utf8(s@), byte) == encode_utf8(s@).len(),
        },
{
    let bytes = s.as_bytes();
    let mut i: usize = 0;
    while i < bytes.len() && bytes[i] != byte
        invariant
            i <= bytes@.len(),
            forall|j: int| 0 <= j < i ==> bytes@[j] != byte,
        decreases bytes@.len() - i,
    {
        i = i + 1;
    }
    proof {
        lemma_find_is(bytes@, byte, i as int);
    }
    if i == bytes.len() {
        return None;
    }
    proof {
        encode_utf8_valid_utf8(s@);
        is_char_boundary_iff_not_is_continuation_byte(bytes@, i as int);
    }
    let (head, rest) = s.split_at(i);
    proof {
        encode_utf8_valid_utf8(rest@);
        assert(encode_utf8(rest@)[0] == byte);
        reveal_with_fuel(is_char_boundary, 2);
    }
    let (_, tail) = rest.split_at(1);
    assert(encode_utf8(tail@) == encode_utf8(s@).skip(i + 1));
    Some((head, tail))
}

/// Splits a non-empty text into its first line and what follows that line.
pub fn split_line(s: &str) -> (r: (&str, &str))
    requires
        s@.len() > 0,
    ensures
        encode_utf8(r.0@) == first_line(encode_utf8(s@)),
        encode_utf8(r.1@) == other_lines(encode_utf8(s@)),
{
    match split_once(s, LF) {
        None => {
            proof {
                encode_utf8_valid_utf8(s@);
                is_char_boundary_start_end_of_seq(encode_utf8(s@));
            }
            s.split_at(s.as_bytes().len())
        },
        Some((head, tail)) => {
            let bytes = head.as_bytes();
            let n: usize = bytes.len();
            if n > 0 && bytes[n - 1] == CR {
                proof {
                    encode_utf8_valid_utf8(head@);
                    is_char_boundary_iff_not_is_continuation_byte(bytes@, n - 1);
                }
                let (line, _) = head.split_at(n - 1);
                (line, tail)
            } else {
                (head, tail)
            }
        },
    }
}

/// The bytes of two strings put together are the bytes of each.
pub proof fn lemma_encode_concat(a: Seq<char>, b: Seq<char>)
    ensures
        encode_utf8(a + b) == encode_utf8(a) + encode_utf8(b),
    decreases a.len(),
{
    if a.len() == 0 {
        assert(a + b == b);
    } else {
        lemma_encode_concat(a.drop_first(), b);
        assert((a + b).drop_first() == a.drop_first() + b);
    }
}

/// A string with characters has bytes.
pub proof fn lemma_encode_not_empty(s: Seq<char>)
    ensures
        s.len() > 0 <==> encode_utf8(s).len() > 0,
{
    if s.len() > 0 {
        encode_utf8_first_scalar(s);
        char_is_scalar(s[0]);
    }
}

/// The lines of a text that ends with a line feed, and of what follows it, are
/// the lines of both together.
pub proof fn lemma_lines_append(s: Seq<u8>, t: Seq<u8>)
    requires
        s.len() == 0 || s.last() == LF,
    ensures
        lines(s + t) == lines(s) + lines(t),
    decreases s.len(),
{
    if s.len() == 0 {
        assert(s + t == t);
        assert(lines(s) + lines(t) == lines(t));
    } else {
        lemma_find(s, LF);
        let n = find(s, LF);
        lemma_find_is(s + t, LF, n);
        assert((s + t).take(n) == s.take(n));
        assert(other_lines(s + t) == other_lines(s) + t);
        lemma_lines_append(other_lines(s), t);
        assert(lines(s + t) == lines(s) + lines(t));
    }
}

/// A single line with its line feed is one line.
pub proof fn lemma_one_line(line: Seq<u8>)
    requires
        forall|i: int| 0 <= i < line.len() ==> line[i] != LF,
        line.len() > 0 ==> line.last() != CR,
    ensures
        lines(line.push(LF)) == seq![line],
{
    let s = line.push(LF);
    lemma_find_is(s, LF, line.len() as int);
    assert(s.take(line.len() as int) == line);
    assert(other_lines(s) == Seq::<u8>::empty());
    assert(lines(other_lines(s)) == Seq::<Seq<u8>>::empty());
    assert(lines(s) == seq![line]);
}

/// The bytes of a text without control characters hold no control byte.
pub proof fn lemma_no_control_bytes(bytes: Seq<u8>)
    requires
        valid_utf8(bytes),
        !has_control(decode_utf8(bytes)),
    ensures
        forall|i: int| 0 <= i < bytes.len() ==> bytes[i] >= 32 && bytes[i] != 127,
    decreases bytes.len(),
{
    if bytes.len() > 0 {
        let rest = pop_first_scalar(bytes);
        let n = length_of_first_scalar(bytes);
        let text = decode_utf8(bytes);
        let c = decode_first_scalar(bytes);
        assert(text == seq![c as char] + decode_utf8(rest));
        assert forall|i: int| 0 <= i < decode_utf8(rest).len() implies !is_control(
            #[trigger] decode_utf8(rest)[i],
        ) by {
            assert(text[i + 1] == decode_utf8(rest)[i]);
        }
        lemma_no_control_bytes(rest);
        assert(!is_control(text[0]));
        assert forall|i: int| 0 <= i < bytes.len() implies bytes[i] >= 32 && bytes[i] != 127 by {
            if i >= n {
                assert(bytes[i] == rest[i - n]);
            } else if bytes[0] < 128 {
                let b = bytes[0];
                assert(b < 128 ==> (b & 0x7f) == b) by (bit_vector);
            }
        }
    }
}

/// ASCII bytes are a text of as many characters, each the byte's own.
pub proof fn lemma_ascii_bytes(bytes: Seq<u8>)
    requires
        forall|i: int| 0 <= i < bytes.len() ==> bytes[i] < 128,
    ensures
        valid_utf8(bytes),
        decode_utf8(bytes) == Seq::new(bytes.len(), |i: int| bytes[i] as char),
    decreases bytes.len(),
{
    if bytes.len() > 0 {
        let b = bytes[0];
        assert(b < 128 ==> (b & 0x7f) == b) by (bit_vector);
        let rest = pop_first_scalar(bytes);
        assert(rest == bytes.drop_first());
        lemma_ascii_bytes(rest);
        assert(decode_utf8(bytes) == Seq::new(bytes.len(), |i: int| bytes[i] as char));
    }
}

/// A text without a line feed is its own first line. Of a text with one, what
/// stands before the first line feed is the first line, but for one carriage
/// return right before it, and what stands behind the line feed is the rest.
pub proof fn law_first_line_ends_at_line_feed(head: Seq<u8>, tail: Seq<u8>)
    requires
        forall|i: int| 0 <= i < head.len() ==> head[i] != 10,
    ensures
        first_line(head) == head,
        other_lines(head).len() == 0,
        other_lines(head.push(10) + tail) == tail,
        head.len() == 0 || head.last() != 13 ==> first_line(head.push(10) + tail) == head,
        first_line(head.push(13).push(10) + tail) == head,
        other_lines(head.push(13).push(10) + tail) == tail,
{
    let n = head.len() as int;
    lemma_find_is(head, LF, n);
    let s = head.push(10) + tail;
    lemma_find_is(s, LF, n);
    assert(s.take(n) == head);
    assert(s.skip(n + 1) == tail);
    let t = head.push(13).push(10) + tail;
    lemma_find_is(t, LF, n + 1);
    assert(t.take(n + 1) == head.push(13));
    assert(head.push(13).drop_last() == head);
    assert(t.skip(n + 2) == tail);
}

/// The lines of a text: none if it is empty, the text itself if it has no line
/// feed; otherwise what stands before the first line feed, without the carriage
/// return of the line ending, and then the lines of what stands behind it.
pub proof fn law_lines(head: Seq<u8>, tail: Seq<u8>)
    requires
        forall|i: int| 0 <= i < head.len() ==> head[i] != 10,
    ensures
        lines(Seq::<u8>::empty()).len() == 0,
        head.len() > 0 ==> lines(head) == seq![head],
        head.len() == 0 || head.last() != 13 ==> lines(head.push(10) + tail) == seq![head] + lines(
            tail,
        ),
        lines(head.push(13).push(10) + tail) == seq![head] + lines(tail),
{
    law_first_line_ends_at_line_feed(head, tail);
    if head.len() > 0 {
        assert(lines(other_lines(head)) == Seq::<Seq<u8>>::empty());
        assert(lines(head) == seq![head]);
    }
}

/// A control character is one whose code lies below 32, or from 127 to 159.
pub proof fn law_control_codes(s: Seq<char>)
    ensures
        has_control(s) <==> exists|i: int|
            0 <= i < s.len() && ((#[trigger] s[i]) as int <= 31 || 127 <= s[i] as int <= 159),
{
    if has_control(s) {
        let i = choose|i: int| 0 <= i < s.len() && is_control(#[trigger] s[i]);
        assert(s[i] as int <= 31 || 127 <= s[i] as int <= 159);
    }
    if exists|i: int|
        0 <= i < s.len() && ((#[trigger] s[i]) as int <= 31 || 127 <= s[i] as int <= 159) {
        let i = choose|i: int|
            0 <= i < s.len() && ((#[trigger] s[i]) as int <= 31 || 127 <= s[i] as int <= 159);
        assert(is_control(s[i]));
    }
}

/// The place that is found is the first that holds the byte; there is none
/// exactly if no place does.
pub proof fn law_found_is_first(s: Seq<u8>, byte: u8)
    ensures
        0 <= find(s, byte) <= s.len(),
        forall|j: int| 0 <= j < find(s, byte) ==> s[j] != byte,
        find(s, byte) < s.len() <==> s.contains(byte),
        find(s, byte) < s.len() ==> s[find(s, byte)] == byte,
{
    lemma_find(s, byte);
    if s.contains(byte) {
        let j = choose|j: int| 0 <= j < s.len() && s[j] == byte;
        assert(s[j] == byte);
    }
}

} // verus!
