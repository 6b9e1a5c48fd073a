//! Header maps and their text form: one `name:value` line per header.

use vstd::prelude::*;
use vstd::string::*;
use vstd::utf8::*;

use http::header::{HeaderName, HeaderValue, InvalidHeaderName, InvalidHeaderValue, MaxSizeReached};
use http::HeaderMap;
use std::str::FromStr;

use crate::text::{any_control, bytes_to_str, split_line, split_once};
use crate::text::{find, first_line, has_control, is_control, lines, other_lines, CR, LF};
use crate::text::{law_control_codes, law_lines};
use crate::text::{lemma_ascii_bytes, lemma_encode_concat, lemma_encode_not_empty, lemma_find};
use crate::text::{lemma_find_is, lemma_lines_append, lemma_no_control_bytes, lemma_one_line};

verus! {

/// Colon, which ends the name in the text form of a header.
pub const COLON: u8 = 58;

/// How many headers a map holds at most for an insertion to be sure of its
/// place, whatever the names are: a fifth of the slots of the largest map.
pub const ROOM: usize = 6553;

/// A map from header names to their values, in the order in which it is walked.
#[verifier::external_type_specification]
#[verifier::external_body]
#[verifier::reject_recursive_types(T)]
pub struct ExHeaderMap<T>(HeaderMap<T>);

/// The name of a header.
#[verifier::external_type_specification]
#[verifier::external_body]
pub struct ExHeaderName(HeaderName);

/// The value of a header.
#[verifier::external_type_specification]
#[verifier::external_body]
pub struct ExHeaderValue(HeaderValue);

/// The error for a text that is no header name.
#[verifier::external_type_specification]
#[verifier::external_body]
pub struct ExInvalidHeaderName(InvalidHeaderName);

/// The error for a text that is no header value.
#[verifier::external_type_specification]
#[verifier::external_body]
pub struct ExInvalidHeaderValue(InvalidHeaderValue);

/// The error for a header map that cannot grow.
#[verifier::external_type_specification]
#[verifier::external_body]
pub struct ExMaxSizeReached(MaxSizeReached);

/// The headers that a map holds, name and value, in the order in which it is
/// walked. The values of one name stand together.
pub uninterp spec fn header_entries(map: HeaderMap<HeaderValue>) -> Seq<(Seq<u8>, Seq<u8>)>;

/// The bytes of a header name.
pub uninterp spec fn name_bytes(name: HeaderName) -> Seq<u8>;

/// The bytes of a header value.
pub uninterp spec fn value_bytes(value: HeaderValue) -> Seq<u8>;

/// The byte that stands for `b` in a header name: lower case for a letter, the
/// byte itself for the other bytes that a name can hold, 0 for the rest.
pub open spec fn name_byte(b: u8) -> u8 {
    if 65 <= b <= 90 {
        (b + 32) as u8
    } else if 33 <= b <= 39 || b == 42 || b == 43 || b == 45 || b == 46 || 48 <= b <= 57 || 94 <= b
        <= 122 || b == 124 || b == 126 {
        b
    } else {
        0
    }
}

/// The form under which a map keeps the header that a text names.
pub open spec fn header_key(text: Seq<u8>) -> Seq<u8> {
    Seq::new(text.len(), |i: int| name_byte(text[i]))
}

/// Whether a text is a header name.
pub open spec fn is_header_name(text: Seq<u8>) -> bool {
    &&& 1 <= text.len() <= 65535
    &&& forall|i: int| 0 <= i < text.len() ==> name_byte(#[trigger] text[i]) != 0
}

/// Whether a text is a name in the form under which a map keeps it: in lower
/// case, and with 0 for what no name can hold. A name that was parsed holds no
/// 0; a map takes one from a static string of more than 64 bytes.
pub open spec fn is_stored_name(text: Seq<u8>) -> bool {
    &&& 1 <= text.len() <= 65535
    &&& header_key(text) == text
}

/// Whether a text is a header value: no control byte but the tab. Bytes beyond
/// ASCII are in order.
pub open spec fn is_header_value(text: Seq<u8>) -> bool {
    forall|i: int|
        0 <= i < text.len() ==> #[trigger] text[i] == 9 || (text[i] >= 32 && text[i] != 127)
}

/// The headers without those of one name.
pub open spec fn removed(entries: Seq<(Seq<u8>, Seq<u8>)>, key: Seq<u8>) -> Seq<
    (Seq<u8>, Seq<u8>),
>
    decreases entries.len(),
{
    if entries.len() == 0 {
        entries
    } else if entries[0].0 == key {
        removed(entries.drop_first(), key)
    } else {
        seq![entries[0]] + removed(entries.drop_first(), key)
    }
}

/// The headers after one was inserted: it takes the place of the first header
/// of that name and the others of that name go, or it comes last.
pub open spec fn inserted(
    entries: Seq<(Seq<u8>, Seq<u8>)>,
    key: Seq<u8>,
    value: Seq<u8>,
) -> Seq<(Seq<u8>, Seq<u8>)>
    decreases entries.len(),
{
    if entries.len() == 0 {
        seq![(key, value)]
    } else if entries[0].0 == key {
        seq![(key, value)] + removed(entries.drop_first(), key)
    } else {
        seq![entries[0]] + inserted(entries.drop_first(), key, value)
    }
}

/// The value of the first header of a name.
pub open spec fn lookup(entries: Seq<(Seq<u8>, Seq<u8>)>, key: Seq<u8>) -> Option<Seq<u8>>
    decreases entries.len(),
{
    if entries.len() == 0 {
        None
    } else if entries[0].0 == key {
        Some(entries[0].1)
    } else {
        lookup(entries.drop_first(), key)
    }
}

/// Calls `HeaderMap::new`, which makes a map without headers.
#[verifier::external_body]
fn new_map() -> (map: HeaderMap<HeaderValue>)
    ensures
        header_entries(map) == Seq::<(Seq<u8>, Seq<u8>)>::empty(),
{
    HeaderMap::new()
}

/// Calls `HeaderName::from_str`, which accepts exactly the header names, and
/// keeps them in lower case.
#[verifier::external_body]
fn parse_name(text: &str) -> (r: Result<HeaderName, InvalidHeaderName>)
    ensures
        r is Ok <==> is_header_name(encode_utf8(text@)),
        r matches Ok(name) ==> name_bytes(name) == header_key(encode_utf8(text@)),
{
    HeaderName::from_str(text)
}

/// Calls `HeaderValue::from_str`, which accepts exactly the header values, and
/// keeps their bytes.
#[verifier::external_body]
fn parse_value(text: &str) -> (r: Result<HeaderValue, InvalidHeaderValue>)
    ensures
        r is Ok <==> is_header_value(encode_utf8(text@)),
        r matches Ok(value) ==> value_bytes(value) == encode_utf8(text@),
{
    HeaderValue::from_str(text)
}

/// Calls `HeaderMap::try_insert`, which replaces the headers of a name by one,
/// or adds one at the end. It can fail only in a map of more than [`ROOM`]
/// headers, and the map then stays as it is; in which of these maps it fails
/// hangs on how the names hash, and is left unsaid.
#[verifier::external_body]
fn try_insert(
    map: &mut HeaderMap<HeaderValue>,
    name: HeaderName,
    value: HeaderValue,
) -> (r: Result<(), MaxSizeReached>)
    ensures
        header_entries(*old(map)).len() <= ROOM ==> r is Ok,
        r is Ok ==> header_entries(*final(map)) == inserted(
            header_entries(*old(map)),
            name_bytes(name),
            value_bytes(value),
        ),
        r is Err ==> header_entries(*final(map)) == header_entries(*old(map)),
{
    map.try_insert(name, value).map(|_| ())
}

/// Calls `HeaderMap::get` with a string, which gives the value of the first
/// header that the string names, in whatever case, as bytes.
#[verifier::external_body]
pub(crate) fn get_header<'a>(map: &'a HeaderMap<HeaderValue>, name: &str) -> (r: Option<&'a [u8]>)
    ensures
        match r {
            Some(value) => lookup(header_entries(*map), header_key(encode_utf8(name@))) == Some(
                value@,
            ),
            None => lookup(header_entries(*map), header_key(encode_utf8(name@))) is None,
        },
{
    map.get(name).map(|value| value.as_bytes())
}

/// Calls `HeaderMap::iter` and hands out each header's name as a string and
/// its value as bytes, in the map's order. Every name that a map holds is in
/// stored form.
#[verifier::external_body]
fn header_list(map: &HeaderMap<HeaderValue>) -> (r: Vec<(String, Vec<u8>)>)
    ensures
        r@.len() == header_entries(*map).len(),
        forall|i: int|
            0 <= i < r@.len() ==> encode_utf8((#[trigger] r@[i]).0@) == header_entries(*map)[i].0
                && r@[i].1@ == header_entries(*map)[i].1,
        forall|i: int| 0 <= i < r@.len() ==> is_stored_name(encode_utf8((#[trigger] r@[i]).0@)),
{
    map.iter().map(|(name, value)| (name.as_str().to_owned(), value.as_bytes().to_vec())).collect()
}

/// Why a text is not that of a header map.
#[derive(Debug, PartialEq, Eq, Structural)]
pub enum DecodeError {
    /// The part of a line before its colon is no header name.
    InvalidName,
    /// The part of a line after its colon is no header value.
    InvalidValue,
}

/// Why a header map has no text.
#[derive(Debug, PartialEq, Eq, Structural)]
pub enum EncodeError {
    /// The value of a header is not UTF-8.
    InvalidUtf8,
    /// The name of a header holds a control character or a separator.
    InvalidName,
    /// The value of a header holds a control character.
    InvalidValue,
}

/// What a text of headers, or one of its lines, stands for.
pub enum Decoded<T> {
    /// A line without a colon, of which no meaning is given.
    NoColon,
    /// A line that is refused.
    Refused(DecodeError),
    /// Proper headers.
    Value(T),
}

/// What a line stands for: its name, in lower case, and its value.
pub open spec fn decode_line(line: Seq<u8>) -> Decoded<(Seq<u8>, Seq<u8>)> {
    let n = find(line, COLON);
    if n >= line.len() {
        Decoded::NoColon
    } else if !is_header_name(line.take(n)) {
        Decoded::Refused(DecodeError::InvalidName)
    } else if !is_header_value(line.skip(n + 1)) {
        Decoded::Refused(DecodeError::InvalidValue)
    } else {
        Decoded::Value((header_key(line.take(n)), line.skip(n + 1)))
    }
}

/// What lines stand for: the headers inserted one after the other, unless a
/// line is not proper; then the first such line decides.
pub open spec fn decode_lines(lines: Seq<Seq<u8>>) -> Decoded<Seq<(Seq<u8>, Seq<u8>)>>
    decreases lines.len(),
{
    if lines.len() == 0 {
        Decoded::Value(Seq::empty())
    } else {
        match decode_lines(lines.drop_last()) {
            Decoded::Value(entries) => match decode_line(lines.last()) {
                Decoded::Value((key, value)) => Decoded::Value(inserted(entries, key, value)),
                Decoded::Refused(error) => Decoded::Refused(error),
                Decoded::NoColon => Decoded::NoColon,
            },
            Decoded::Refused(error) => Decoded::Refused(error),
            Decoded::NoColon => Decoded::NoColon,
        }
    }
}

/// What a text of headers stands for.
pub open spec fn decode_headers(text: Seq<u8>) -> Decoded<Seq<(Seq<u8>, Seq<u8>)>> {
    decode_lines(lines(text))
}

/// Whether lines at the start of a text stand for more than [`ROOM`] headers.
pub open spec fn overfull(text: Seq<u8>) -> bool {
    exists|n: int|
        0 <= n <= lines(text).len() && (#[trigger] decode_lines(lines(text).take(n)) matches Decoded::Value(
            entries,
        ) && entries.len() > ROOM)
}

proof fn lemma_decode_lines_stops(a: Seq<Seq<u8>>, b: Seq<Seq<u8>>)
    requires
        !(decode_lines(a) is Value),
    ensures
        decode_lines(a + b) == decode_lines(a),
    decreases b.len(),
{
    if b.len() == 0 {
        assert(a + b == a);
    } else {
        lemma_decode_lines_stops(a, b.drop_last());
        assert((a + b).drop_last() == a + b.drop_last());
    }
}

/// Decodes a header map from a string. There is no result where a line holds
/// no colon, or where a map of more than [`ROOM`] headers cannot grow.
pub fn string_to_header_map_checked(s: &str) -> (r: Option<
    Result<HeaderMap<HeaderValue>, DecodeError>,
>)
    ensures
        match r {
            Some(Ok(map)) => decode_headers(encode_utf8(s@)) == Decoded::Value(
                header_entries(map),
            ),
            Some(Err(error)) => decode_headers(encode_utf8(s@)) == Decoded::<
                Seq<(Seq<u8>, Seq<u8>)>,
            >::Refused(error),
            None => decode_headers(encode_utf8(s@)) is NoColon || overfull(encode_utf8(s@)),
        },
        decode_headers(encode_utf8(s@)) is NoColon ==> r is None,
{
    let ghost all = lines(encode_utf8(s@));
    let ghost mut done: Seq<Seq<u8>> = Seq::empty();
    let mut headers = new_map();
    let mut rest = s;
    assert(done + lines(encode_utf8(rest@)) == all);
    while !rest.is_empty()
        invariant
            all == lines(encode_utf8(s@)),
            done + lines(encode_utf8(rest@)) == all,
            decode_lines(done) == Decoded::Value(header_entries(headers)),
        ensures
            rest@.len() == 0,
        decreases encode_utf8(rest@).len(),
    {
        let (line, tail) = split_line(rest);
        let ghost bytes = encode_utf8(line@);
        proof {
            lemma_encode_not_empty(rest@);
            lemma_find(encode_utf8(rest@), LF);
            let remaining = lines(encode_utf8(tail@));
            let before = done;
            done = done.push(bytes);
            assert(lines(encode_utf8(rest@)) == seq![bytes] + remaining);
            assert(done + remaining == all);
            assert(done.drop_last() == before);
            assert(all.take(before.len() as int) == before);
            if !(decode_lines(done) is Value) {
                lemma_decode_lines_stops(done, remaining);
            }
        }
        let (k, v) = match split_once(line, COLON) {
            Some(parts) => parts,
            None => return None,
        };
        let name = match parse_name(k) {
            Ok(name) => name,
            Err(_) => return Some(Err(DecodeError::InvalidName)),
        };
        let value = match parse_value(v) {
            Ok(value) => value,
            Err(_) => return Some(Err(DecodeError::InvalidValue)),
        };
        match try_insert(&mut headers, name, value) {
            Ok(()) => {},
            Err(_) => {
                assert(decode_lines(all.take(done.len() - 1)) matches Decoded::Value(entries)
                    && entries.len() > ROOM);
                return None;
            },
        }
        rest = tail;
    }
    assert(done == all);
    Some(Ok(headers))
}

/// Decodes a header map from a string.
pub fn string_to_header_map(s: &str) -> (r: Result<HeaderMap<HeaderValue>, DecodeError>)
    requires
        !(decode_headers(encode_utf8(s@)) is NoColon),
        !overfull(encode_utf8(s@)),
    ensures
        match r {
            Ok(map) => decode_headers(encode_utf8(s@)) == Decoded::Value(header_entries(map)),
            Err(error) => decode_headers(encode_utf8(s@)) == Decoded::<
                Seq<(Seq<u8>, Seq<u8>)>,
            >::Refused(error),
        },
{
    match string_to_header_map_checked(s) {
        Some(r) => r,
        None => vstd::pervasive::unreached(),
    }
}

/// A character that separates the parts of a header, and stands in no name.
pub open spec fn is_separator(c: char) -> bool {
    ||| c == '(' || c == ')' || c == ',' || c == '/' || c == ':' || c == ';' || c == '<'
    ||| c == '=' || c == '>' || c == '?' || c == '@' || c == '[' || c == '\\' || c == ']'
    ||| c == '{' || c == '}'
}

pub open spec fn has_separator(s: Seq<char>) -> bool {
    exists|i: int| 0 <= i < s.len() && is_separator(#[trigger] s[i])
}

/// Whether any character of a string is a separator.
fn any_separator(s: &str) -> (r: bool)
    ensures
        r == has_separator(s@),
{
    let mut found: bool = false;
    for c in it: s.chars()
        invariant
            it.seq() == s@,
            found == exists|i: int| 0 <= i < it.index() && is_separator(#[trigger] s@[i]),
    {
        if c == '(' || c == ')' || c == ',' || c == '/' || c == ':' || c == ';' || c == '<' || c
            == '=' || c == '>' || c == '?' || c == '@' || c == '[' || c == '\\' || c == ']' || c
            == '{' || c == '}' {
            found = true;
            assert(is_separator(s@[it.index() as int]));
        }
    }
    found
}

/// The line of a header: its name, a colon, its value and a line feed.
pub open spec fn encode_entry(entry: (Seq<u8>, Seq<u8>)) -> Result<Seq<u8>, EncodeError> {
    if !valid_utf8(entry.1) {
        Err(EncodeError::InvalidUtf8)
    } else if has_control(decode_utf8(entry.0)) || has_separator(decode_utf8(entry.0)) {
        Err(EncodeError::InvalidName)
    } else if has_control(decode_utf8(entry.1)) {
        Err(EncodeError::InvalidValue)
    } else {
        Ok(entry.0 + seq![COLON] + entry.1 + seq![LF])
    }
}

/// The text of headers: their lines in order, unless one has none; then the
/// first such header decides.
pub open spec fn encode_headers(entries: Seq<(Seq<u8>, Seq<u8>)>) -> Result<Seq<u8>, EncodeError>
    decreases entries.len(),
{
    if entries.len() == 0 {
        Ok(Seq::empty())
    } else {
        match encode_headers(entries.drop_last()) {
            Ok(text) => match encode_entry(entries.last()) {
                Ok(line) => Ok(text + line),
                Err(error) => Err(error),
            },
            Err(error) => Err(error),
        }
    }
}

proof fn lemma_encode_headers_stops(entries: Seq<(Seq<u8>, Seq<u8>)>, n: int)
    requires
        0 <= n <= entries.len(),
        encode_headers(entries.take(n)) is Err,
    ensures
        encode_headers(entries) == encode_headers(entries.take(n)),
    decreases entries.len() - n,
{
    if n == entries.len() {
        assert(entries.take(n) == entries);
    } else {
        assert(entries.take(n + 1).drop_last() == entries.take(n));
        lemma_encode_headers_stops(entries, n + 1);
    }
}

/// Encodes a header map as a string. Decoding the string gives the map back;
/// where a name has several values, the last of them takes the place of the
/// first.
pub fn header_map_to_string(hm: &HeaderMap<HeaderValue>) -> (r: Result<String, EncodeError>)
    ensures
        match r {
            Ok(text) => encode_headers(header_entries(*hm)) == Ok::<Seq<u8>, EncodeError>(
                encode_utf8(text@),
            ),
            Err(error) => encode_headers(header_entries(*hm)) == Err::<Seq<u8>, EncodeError>(error),
        },
        r matches Ok(text) ==> decode_headers(encode_utf8(text@)) == Decoded::Value(
            collapsed(header_entries(*hm)),
        ),
        stored_names(header_entries(*hm)),
{
    let items = header_list(hm);
    let ghost entries = header_entries(*hm);
    assert forall|i: int| 0 <= i < entries.len() implies is_stored_name(
        (#[trigger] entries[i]).0,
    ) by {
        assert(is_stored_name(encode_utf8(items@[i].0@)));
    }
    let mut res = String::new();
    let mut i: usize = 0;
    assert(entries.take(0) == Seq::<(Seq<u8>, Seq<u8>)>::empty());
    while i < items.len()
        invariant
            i <= items@.len(),
            entries == header_entries(*hm),
            stored_names(entries),
            items@.len() == entries.len(),
            forall|j: int|
                0 <= j < items@.len() ==> encode_utf8((#[trigger] items@[j]).0@) == entries[j].0
                    && items@[j].1@ == entries[j].1,
            encode_headers(entries.take(i as int)) == Ok::<Seq<u8>, EncodeError>(
                encode_utf8(res@),
            ),
        decreases items@.len() - i,
    {
        let name = items[i].0.as_str();
        let bytes = items[i].1.as_slice();
        proof {
            let next = entries.take(i + 1);
            assert(next.drop_last() == entries.take(i as int));
            assert(next.last() == entries[i as int]);
            encode_utf8_decode_utf8(name@);
            if encode_headers(next) is Err {
                lemma_encode_headers_stops(entries, i + 1);
            }
        }
        let value = match bytes_to_str(bytes) {
            Ok(value) => value,
            Err(_) => return Err(EncodeError::InvalidUtf8),
        };
        if any_control(name) || any_separator(name) {
            return Err(EncodeError::InvalidName);
        }
        if any_control(value) {
            return Err(EncodeError::InvalidValue);
        }
        let ghost before = res@;
        res.append(name);
        res.append(":");
        res.append(value);
        res.append("\n");
        proof {
            reveal_strlit(":");
            reveal_strlit("\n");
            decode_utf8_encode_utf8(bytes@);
            lemma_encode_concat(before, name@);
            lemma_encode_concat(before + name@, ":"@);
            lemma_encode_concat(before + name@ + ":"@, value@);
            lemma_encode_concat(before + name@ + ":"@ + value@, "\n"@);
            is_ascii_chars_encode_utf8(":"@);
            is_ascii_chars_encode_utf8("\n"@);
            assert(encode_utf8(":"@) == seq![COLON]);
            assert(encode_utf8("\n"@) == seq![LF]);
            assert(encode_utf8(res@) == encode_utf8(before) + (entries[i as int].0 + seq![COLON]
                + entries[i as int].1 + seq![LF]));
        }
        i = i + 1;
    }
    assert(entries.take(i as int) == entries);
    proof {
        law_decoding_undoes_encoding(entries);
    }
    Ok(res)
}

/// Whether headers are such as a map holds: their names are in stored form.
pub open spec fn stored_names(entries: Seq<(Seq<u8>, Seq<u8>)>) -> bool {
    forall|i: int| 0 <= i < entries.len() ==> is_stored_name((#[trigger] entries[i]).0)
}

/// Whether headers have proper names, in lower case.
pub open spec fn proper_names(entries: Seq<(Seq<u8>, Seq<u8>)>) -> bool {
    forall|i: int|
        0 <= i < entries.len() ==> is_header_name((#[trigger] entries[i]).0) && header_key(
            entries[i].0,
        ) == entries[i].0
}

/// Whether a header of a map has a line: its name holds no 0, and its value is
/// UTF-8 without control characters.
pub open spec fn can_be_encoded(entry: (Seq<u8>, Seq<u8>)) -> bool {
    &&& !entry.0.contains(0)
    &&& valid_utf8(entry.1)
    &&& !has_control(decode_utf8(entry.1))
}

/// Whether no two headers share a name.
pub open spec fn distinct_names(entries: Seq<(Seq<u8>, Seq<u8>)>) -> bool {
    forall|i: int, j: int|
        0 <= i < j < entries.len() ==> (#[trigger] entries[i]).0 != (#[trigger] entries[j]).0
}

/// Headers inserted one after the other into an empty map.
pub open spec fn collapsed(entries: Seq<(Seq<u8>, Seq<u8>)>) -> Seq<(Seq<u8>, Seq<u8>)>
    decreases entries.len(),
{
    if entries.len() == 0 {
        Seq::empty()
    } else {
        inserted(collapsed(entries.drop_last()), entries.last().0, entries.last().1)
    }
}

/// Inserting a header makes it the one that its name finds, and changes what no
/// other name finds.
pub proof fn law_insert_then_lookup(
    entries: Seq<(Seq<u8>, Seq<u8>)>,
    key: Seq<u8>,
    value: Seq<u8>,
    other: Seq<u8>,
)
    ensures
        lookup(inserted(entries, key, value), key) == Some(value),
        other != key ==> lookup(inserted(entries, key, value), other) == lookup(entries, other),
    decreases entries.len(),
{
    let result = inserted(entries, key, value);
    if entries.len() == 0 {
        assert(result.drop_first() == entries);
    } else if entries[0].0 == key {
        let rest = removed(entries.drop_first(), key);
        assert(result.drop_first() == rest);
        lemma_removed(entries.drop_first(), key, other);
    } else {
        assert(result.drop_first() == inserted(entries.drop_first(), key, value));
        law_insert_then_lookup(entries.drop_first(), key, value, other);
    }
}

proof fn lemma_removed(entries: Seq<(Seq<u8>, Seq<u8>)>, key: Seq<u8>, other: Seq<u8>)
    ensures
        removed(entries, key).len() <= entries.len(),
        other != key ==> lookup(removed(entries, key), other) == lookup(entries, other),
    decreases entries.len(),
{
    if entries.len() > 0 {
        lemma_removed(entries.drop_first(), key, other);
        if entries[0].0 != key {
            assert(removed(entries, key).drop_first() == removed(entries.drop_first(), key));
        }
    }
}

/// A header's name is found in whatever case it is written.
pub proof fn law_lookup_ignores_case(entries: Seq<(Seq<u8>, Seq<u8>)>, a: Seq<u8>, b: Seq<u8>)
    requires
        a.len() == b.len(),
        forall|i: int|
            0 <= i < a.len() ==> #[trigger] a[i] == b[i] || (65 <= a[i] <= 90 && b[i] == a[i] + 32)
                || (65 <= b[i] <= 90 && a[i] == b[i] + 32),
    ensures
        lookup(entries, header_key(a)) == lookup(entries, header_key(b)),
        is_header_name(a) == is_header_name(b),
{
    assert forall|i: int| 0 <= i < a.len() implies name_byte(#[trigger] a[i]) == name_byte(
        b[i],
    ) by {}
    assert(header_key(a) == header_key(b));
    if is_header_name(a) {
        assert forall|i: int| 0 <= i < b.len() implies name_byte(#[trigger] b[i]) != 0 by {
            assert(name_byte(a[i]) != 0);
        }
    }
    if is_header_name(b) {
        assert forall|i: int| 0 <= i < a.len() implies name_byte(#[trigger] a[i]) != 0 by {
            assert(name_byte(b[i]) != 0);
        }
    }
}

proof fn lemma_inserted_len(entries: Seq<(Seq<u8>, Seq<u8>)>, key: Seq<u8>, value: Seq<u8>)
    ensures
        inserted(entries, key, value).len() <= entries.len() + 1,
    decreases entries.len(),
{
    if entries.len() > 0 {
        lemma_removed(entries.drop_first(), key, key);
        lemma_inserted_len(entries.drop_first(), key, value);
    }
}

proof fn lemma_collapsed_len(entries: Seq<(Seq<u8>, Seq<u8>)>)
    ensures
        collapsed(entries).len() <= entries.len(),
    decreases entries.len(),
{
    if entries.len() > 0 {
        lemma_collapsed_len(entries.drop_last());
        lemma_inserted_len(collapsed(entries.drop_last()), entries.last().0, entries.last().1);
    }
}

proof fn lemma_inserted_new(entries: Seq<(Seq<u8>, Seq<u8>)>, key: Seq<u8>, value: Seq<u8>)
    requires
        forall|i: int| 0 <= i < entries.len() ==> (#[trigger] entries[i]).0 != key,
    ensures
        inserted(entries, key, value) == entries.push((key, value)),
    decreases entries.len(),
{
    if entries.len() > 0 {
        lemma_inserted_new(entries.drop_first(), key, value);
        assert(entries.push((key, value)) == seq![entries[0]] + entries.drop_first().push(
            (key, value),
        ));
    } else {
        assert(entries.push((key, value)) == seq![(key, value)]);
    }
}

/// Inserting headers with distinct names one after the other keeps them all, in
/// their order.
pub proof fn law_distinct_headers_stay(entries: Seq<(Seq<u8>, Seq<u8>)>)
    requires
        distinct_names(entries),
    ensures
        collapsed(entries) == entries,
    decreases entries.len(),
{
    if entries.len() > 0 {
        let init = entries.drop_last();
        assert(distinct_names(init)) by {
            assert forall|i: int, j: int| 0 <= i < j < init.len() implies (#[trigger] init[i]).0 != (
            #[trigger] init[j]).0 by {
                assert(entries[i].0 != entries[j].0);
            }
        }
        law_distinct_headers_stay(init);
        assert forall|i: int| 0 <= i < init.len() implies (#[trigger] init[i]).0
            != entries.last().0 by {
            assert(entries[i].0 != entries[entries.len() - 1].0);
        }
        lemma_inserted_new(init, entries.last().0, entries.last().1);
        assert(entries == init.push(entries.last()));
    } else {
        assert(collapsed(entries) == entries);
    }
}

proof fn lemma_entry_line(entry: (Seq<u8>, Seq<u8>))
    requires
        is_header_name(entry.0),
        header_key(entry.0) == entry.0,
        encode_entry(entry) is Ok,
    ensures
        encode_entry(entry)->Ok_0.last() == LF,
        lines(encode_entry(entry)->Ok_0) == seq![entry.0 + seq![COLON] + entry.1],
        decode_line(entry.0 + seq![COLON] + entry.1) == Decoded::Value(entry),
{
    let line = entry.0 + seq![COLON] + entry.1;
    lemma_no_control_bytes(entry.1);
    assert forall|i: int| 0 <= i < line.len() implies line[i] != LF && line[i] != CR by {
        if i < entry.0.len() {
            assert(name_byte(entry.0[i]) != 0);
        } else if i > entry.0.len() {
            assert(line[i] == entry.1[i - entry.0.len() - 1]);
        }
    }
    lemma_one_line(line);
    assert(encode_entry(entry)->Ok_0 == line.push(LF));
    let n = entry.0.len() as int;
    assert forall|i: int| 0 <= i < n implies line[i] != COLON by {
        assert(name_byte(entry.0[i]) != 0);
    }
    lemma_find_is(line, COLON, n);
    assert(line.take(n) == entry.0);
    assert(line.skip(n + 1) == entry.1);
}

proof fn lemma_round_trip(entries: Seq<(Seq<u8>, Seq<u8>)>)
    requires
        proper_names(entries),
        encode_headers(entries) is Ok,
    ensures
        ({
            let text = encode_headers(entries)->Ok_0;
            &&& text.len() == 0 || text.last() == LF
            &&& lines(text).len() == entries.len()
            &&& forall|n: int|
                0 <= n <= entries.len() ==> #[trigger] decode_lines(lines(text).take(n))
                    == Decoded::Value(collapsed(entries.take(n)))
        }),
    decreases entries.len(),
{
    let text = encode_headers(entries)->Ok_0;
    if entries.len() == 0 {
        assert(lines(text).take(0) == Seq::<Seq<u8>>::empty());
        assert(entries.take(0) == entries);
    } else {
        let init = entries.drop_last();
        let last = entries.last();
        assert(entries[entries.len() - 1] == last);
        assert forall|i: int| 0 <= i < init.len() implies is_header_name((#[trigger] init[i]).0)
            && header_key(init[i].0) == init[i].0 by {
            assert(init[i] == entries[i]);
        }
        lemma_round_trip(init);
        lemma_entry_line(last);
        let before = encode_headers(init)->Ok_0;
        let line = last.0 + seq![COLON] + last.1;
        lemma_lines_append(before, encode_entry(last)->Ok_0);
        assert(lines(text) == lines(before).push(line));
        assert forall|n: int| 0 <= n <= entries.len() implies #[trigger] decode_lines(
            lines(text).take(n),
        ) == Decoded::Value(collapsed(entries.take(n))) by {
            assert(decode_lines(lines(before).take(init.len() as int)) == Decoded::Value(
                collapsed(init.take(init.len() as int)),
            ));
            if n == entries.len() {
                assert(lines(text).take(n).drop_last() == lines(before).take(init.len() as int));
                assert(entries.take(n).drop_last() == init.take(init.len() as int));
            } else {
                assert(lines(text).take(n) == lines(before).take(n));
                assert(entries.take(n) == init.take(n));
                assert(decode_lines(lines(before).take(n)) == Decoded::Value(
                    collapsed(init.take(n)),
                ));
            }
        }
    }
}

proof fn lemma_encoded_names(entries: Seq<(Seq<u8>, Seq<u8>)>)
    requires
        stored_names(entries),
        encode_headers(entries) is Ok,
    ensures
        proper_names(entries),
    decreases entries.len(),
{
    if entries.len() > 0 {
        let init = entries.drop_last();
        let last = entries.last();
        assert(entries[entries.len() - 1] == last);
        assert forall|i: int| 0 <= i < init.len() implies is_stored_name((#[trigger] init[i]).0) by {
            assert(init[i] == entries[i]);
        }
        lemma_encoded_names(init);
        lemma_stored_name(last.0);
        assert forall|i: int| 0 <= i < entries.len() implies is_header_name(
            (#[trigger] entries[i]).0,
        ) && header_key(entries[i].0) == entries[i].0 by {
            if i < init.len() {
                assert(entries[i] == init[i]);
            }
        }
    }
}

proof fn lemma_stored_name(name: Seq<u8>)
    requires
        is_stored_name(name),
    ensures
        is_header_name(name) <==> !has_control(decode_utf8(name)),
        !has_separator(decode_utf8(name)),
        is_header_name(name) <==> !name.contains(0),
{
    assert forall|i: int| 0 <= i < name.len() implies name_byte(#[trigger] name[i]) == name[i] by {
        assert(header_key(name)[i] == name[i]);
    }
    assert forall|i: int| 0 <= i < name.len() implies name[i] < 128 by {
        assert(name_byte(name[i]) == name[i]);
    }
    lemma_ascii_bytes(name);
    let text = decode_utf8(name);
    assert forall|i: int| 0 <= i < name.len() implies is_control(#[trigger] text[i]) == (name[i]
        == 0) && !is_separator(text[i]) by {
        assert(name_byte(name[i]) == name[i]);
    }
    if !is_header_name(name) {
        let i = choose|i: int| 0 <= i < name.len() && name_byte(#[trigger] name[i]) == 0;
        assert(is_control(text[i]));
    }
    if name.contains(0) {
        let i = choose|i: int| 0 <= i < name.len() && name[i] == 0;
        assert(is_control(text[i]));
        assert(name_byte(name[i]) == 0);
    }
}

/// Decoding the text of a header map gives the map back. Where a name has
/// several values, the last of them takes the place of the first.
pub proof fn law_decoding_undoes_encoding(entries: Seq<(Seq<u8>, Seq<u8>)>)
    requires
        stored_names(entries),
        encode_headers(entries) is Ok,
    ensures
        decode_headers(encode_headers(entries)->Ok_0) == Decoded::Value(collapsed(entries)),
        distinct_names(entries) ==> decode_headers(encode_headers(entries)->Ok_0)
            == Decoded::Value(entries),
        entries.len() <= ROOM ==> !overfull(encode_headers(entries)->Ok_0),
{
    let text = encode_headers(entries)->Ok_0;
    lemma_encoded_names(entries);
    lemma_round_trip(entries);
    assert(lines(text).take(lines(text).len() as int) == lines(text));
    assert(entries.take(entries.len() as int) == entries);
    if distinct_names(entries) {
        law_distinct_headers_stay(entries);
    }
    if entries.len() <= ROOM && overfull(text) {
        let n = choose|n: int|
            0 <= n <= lines(text).len() && (#[trigger] decode_lines(
                lines(text).take(n),
            ) matches Decoded::Value(found) && found.len() > ROOM);
        lemma_collapsed_len(entries.take(n));
    }
}

/// A header map has a text exactly when each of its values is UTF-8 without
/// control characters, and no name holds a 0.
pub proof fn law_what_can_be_encoded(entries: Seq<(Seq<u8>, Seq<u8>)>)
    requires
        stored_names(entries),
    ensures
        encode_headers(entries) is Ok <==> forall|i: int|
            0 <= i < entries.len() ==> can_be_encoded(#[trigger] entries[i]),
    decreases entries.len(),
{
    if entries.len() > 0 {
        let init = entries.drop_last();
        let last = entries.last();
        assert(entries[entries.len() - 1] == last);
        assert forall|i: int| 0 <= i < init.len() implies is_stored_name((#[trigger] init[i]).0) by {
            assert(init[i] == entries[i]);
        }
        law_what_can_be_encoded(init);
        lemma_stored_name(last.0);
        assert(encode_entry(last) is Ok <==> can_be_encoded(last));
        if encode_headers(init) is Ok && encode_entry(last) is Ok {
            assert forall|i: int| 0 <= i < entries.len() implies can_be_encoded(
                #[trigger] entries[i],
            ) by {
                if i < init.len() {
                    assert(entries[i] == init[i]);
                }
            }
        }
        if forall|i: int| 0 <= i < entries.len() ==> can_be_encoded(#[trigger] entries[i]) {
            assert forall|i: int| 0 <= i < init.len() implies can_be_encoded(#[trigger] init[i]) by {
                assert(init[i] == entries[i]);
            }
        }
    }
}

proof fn lemma_removed_absent(entries: Seq<(Seq<u8>, Seq<u8>)>, key: Seq<u8>)
    requires
        forall|i: int| 0 <= i < entries.len() ==> (#[trigger] entries[i]).0 != key,
    ensures
        removed(entries, key) == entries,
    decreases entries.len(),
{
    if entries.len() > 0 {
        let rest = entries.drop_first();
        assert forall|i: int| 0 <= i < rest.len() implies (#[trigger] rest[i]).0 != key by {
            assert(rest[i] == entries[i + 1]);
        }
        lemma_removed_absent(rest, key);
        assert(seq![entries[0]] + rest == entries);
    }
}

proof fn lemma_inserted_distinct(entries: Seq<(Seq<u8>, Seq<u8>)>, key: Seq<u8>, value: Seq<u8>)
    requires
        distinct_names(entries),
    ensures
        distinct_names(inserted(entries, key, value)),
        forall|i: int|
            0 <= i < inserted(entries, key, value).len() ==> (#[trigger] inserted(
                entries,
                key,
                value,
            )[i]) == (key, value) || exists|j: int|
                0 <= j < entries.len() && entries[j] == inserted(entries, key, value)[i],
    decreases entries.len(),
{
    let result = inserted(entries, key, value);
    if entries.len() > 0 {
        let rest = entries.drop_first();
        assert forall|i: int, j: int| 0 <= i < j < rest.len() implies (#[trigger] rest[i]).0 != (
        #[trigger] rest[j]).0 by {
            assert(entries[i + 1].0 != entries[j + 1].0);
        }
        if entries[0].0 == key {
            assert forall|i: int| 0 <= i < rest.len() implies (#[trigger] rest[i]).0 != key by {
                assert(entries[0].0 != entries[i + 1].0);
            }
            lemma_removed_absent(rest, key);
            assert forall|i: int| 0 <= i < result.len() implies (#[trigger] result[i]) == (
                key,
                value,
            ) || exists|j: int| 0 <= j < entries.len() && entries[j] == result[i] by {
                if i > 0 {
                    assert(entries[i] == result[i]);
                }
            }
            assert forall|i: int, j: int| 0 <= i < j < result.len() implies (
            #[trigger] result[i]).0 != (#[trigger] result[j]).0 by {
                assert(entries[i].0 != entries[j].0);
            }
        } else {
            lemma_inserted_distinct(rest, key, value);
            let tail = inserted(rest, key, value);
            assert forall|i: int| 0 <= i < result.len() implies (#[trigger] result[i]) == (
                key,
                value,
            ) || exists|j: int| 0 <= j < entries.len() && entries[j] == result[i] by {
                if i == 0 {
                    assert(entries[0] == result[0]);
                } else if tail[i - 1] != (key, value) {
                    let j = choose|j: int| 0 <= j < rest.len() && rest[j] == tail[i - 1];
                    assert(entries[j + 1] == result[i]);
                }
            }
            assert forall|i: int, j: int| 0 <= i < j < result.len() implies (
            #[trigger] result[i]).0 != (#[trigger] result[j]).0 by {
                assert(result[j] == tail[j - 1]);
                if i > 0 {
                    assert(result[i] == tail[i - 1]);
                } else if tail[j - 1] != (key, value) {
                    let m = choose|m: int| 0 <= m < rest.len() && rest[m] == tail[j - 1];
                    assert(entries[0].0 != entries[m + 1].0);
                }
            }
        }
    }
}

proof fn lemma_decoded_proper(all: Seq<Seq<u8>>)
    ensures
        decode_lines(all) matches Decoded::Value(entries) ==> proper_names(entries)
            && distinct_names(entries) && forall|i: int|
            0 <= i < entries.len() ==> is_header_value((#[trigger] entries[i]).1),
    decreases all.len(),
{
    if all.len() > 0 && decode_lines(all) is Value {
        lemma_decoded_proper(all.drop_last());
        let before = decode_lines(all.drop_last())->Value_0;
        let line = all.last();
        let name = line.take(find(line, COLON));
        let (key, value) = decode_line(line)->Value_0;
        let entries = inserted(before, key, value);
        assert forall|i: int| 0 <= i < key.len() implies name_byte(#[trigger] key[i]) == key[i]
            && key[i] != 0 by {
            assert(name_byte(name[i]) != 0);
        }
        assert(header_key(key) == key);
        lemma_inserted_distinct(before, key, value);
        assert forall|i: int| 0 <= i < entries.len() implies is_header_name(
            (#[trigger] entries[i]).0,
        ) && header_key(entries[i].0) == entries[i].0 && is_header_value(entries[i].1) by {
            if entries[i] != (key, value) {
                let j = choose|j: int| 0 <= j < before.len() && before[j] == entries[i];
                assert(is_header_name(before[j].0));
            }
        }
    }
}

/// What a text decodes to is proper: every name and every value is one, names
/// are in lower case, and no name occurs twice.
pub proof fn law_decoded_headers_are_proper(text: Seq<u8>, entries: Seq<(Seq<u8>, Seq<u8>)>)
    requires
        decode_headers(text) == Decoded::Value(entries),
    ensures
        proper_names(entries),
        distinct_names(entries),
        forall|i: int| 0 <= i < entries.len() ==> is_header_value((#[trigger] entries[i]).1),
{
    lemma_decoded_proper(lines(text));
}

/// Encoding what a text was decoded to, and decoding that again, changes
/// nothing.
pub proof fn law_decoding_is_stable(text: Seq<u8>, entries: Seq<(Seq<u8>, Seq<u8>)>)
    requires
        decode_headers(text) == Decoded::Value(entries),
        encode_headers(entries) is Ok,
    ensures
        decode_headers(encode_headers(entries)->Ok_0) == Decoded::Value(entries),
{
    law_decoded_headers_are_proper(text, entries);
    assert forall|i: int| 0 <= i < entries.len() implies is_stored_name(
        (#[trigger] entries[i]).0,
    ) by {
        assert(is_header_name(entries[i].0));
    }
    law_decoding_undoes_encoding(entries);
}

/// A name is made of visible ASCII characters that are no separators. A map
/// keeps its letters in lower case and its other characters as they are.
pub proof fn law_name_characters(text: Seq<u8>)
    ensures
        is_header_name(text) <==> 1 <= text.len() <= 65535 && forall|i: int|
            0 <= i < text.len() ==> 33 <= (#[trigger] text[i]) <= 126 && text[i] != 40 && text[i]
                != 41 && text[i] != 44 && text[i] != 47 && !(58 <= text[i] <= 64) && !(91 <= text[i]
                <= 93) && text[i] != 123 && text[i] != 125,
        header_key(text).len() == text.len(),
        forall|i: int|
            0 <= i < text.len() && is_header_name(seq![text[i]]) ==> #[trigger] header_key(text)[i]
                == (if 65 <= text[i] <= 90 {
                text[i] + 32
            } else {
                text[i] as int
            }),
        forall|i: int|
            0 <= i < text.len() && !is_header_name(seq![text[i]]) ==> #[trigger] header_key(text)[i]
                == 0,
{
    assert forall|i: int| 0 <= i < text.len() implies (name_byte(#[trigger] text[i]) != 0 <==> 33
        <= text[i] <= 126 && text[i] != 40 && text[i] != 41 && text[i] != 44 && text[i] != 47 && !(
    58 <= text[i] <= 64) && !(91 <= text[i] <= 93) && text[i] != 123 && text[i] != 125) by {}
    assert forall|i: int| 0 <= i < text.len() && !is_header_name(
        seq![text[i]],
    ) implies #[trigger] header_key(text)[i] == 0 by {
        let one = seq![text[i]];
        assert(one[0] == text[i]);
        if name_byte(text[i]) != 0 {
            assert(is_header_name(one));
        }
    }
    assert forall|i: int| 0 <= i < text.len() && is_header_name(
        seq![text[i]],
    ) implies #[trigger] header_key(text)[i] == (if 65 <= text[i] <= 90 {
        text[i] + 32
    } else {
        text[i] as int
    }) by {
        let one = seq![text[i]];
        assert(name_byte(one[0]) != 0);
    }
}

/// A value holds no control byte but the tab, and may hold any other byte.
pub proof fn law_value_characters(text: Seq<u8>)
    ensures
        is_header_value(text) <==> !text.contains(127) && forall|b: u8|
            b < 32 && #[trigger] text.contains(b) ==> b == 9,
{
    if is_header_value(text) {
        assert forall|b: u8| b < 32 && #[trigger] text.contains(b) implies b == 9 by {
            let i = choose|i: int| 0 <= i < text.len() && text[i] == b;
            assert(text[i] == b);
        }
        if text.contains(127) {
            let i = choose|i: int| 0 <= i < text.len() && text[i] == 127;
            assert(text[i] == 127);
        }
    }
    if !text.contains(127) && forall|b: u8| b < 32 && #[trigger] text.contains(b) ==> b == 9 {
        assert forall|i: int| 0 <= i < text.len() implies #[trigger] text[i] == 9 || (text[i] >= 32
            && text[i] != 127) by {
            assert(text.contains(text[i]));
        }
    }
}

/// Looking up a name gives the whole value of the first header of that name,
/// and nothing exactly if no header has it.
pub proof fn law_lookup_gives_the_first(entries: Seq<(Seq<u8>, Seq<u8>)>, key: Seq<u8>, k: int)
    ensures
        0 <= k < entries.len() && entries[k].0 == key && (forall|j: int|
            0 <= j < k ==> (#[trigger] entries[j]).0 != key) ==> lookup(entries, key) == Some(
            entries[k].1,
        ),
        lookup(entries, key) is None <==> forall|j: int|
            0 <= j < entries.len() ==> (#[trigger] entries[j]).0 != key,
    decreases entries.len(),
{
    if entries.len() > 0 {
        let rest = entries.drop_first();
        law_lookup_gives_the_first(rest, key, k - 1);
        assert(forall|j: int| 0 <= j < rest.len() ==> #[trigger] rest[j] == entries[j + 1]);
        assert forall|j: int| 0 < j < entries.len() implies #[trigger] entries[j] == rest[j - 1] by {}
        if lookup(entries, key) is None {
            assert forall|j: int| 0 <= j < entries.len() implies (#[trigger] entries[j]).0
                != key by {
                if j > 0 {
                    assert(rest[j - 1].0 != key);
                }
            }
        }
        if 0 < k < entries.len() && entries[k].0 == key && forall|j: int|
            0 <= j < k ==> (#[trigger] entries[j]).0 != key {
            assert(entries[0].0 != key);
            assert forall|j: int| 0 <= j < k - 1 implies (#[trigger] rest[j]).0 != key by {
                assert(entries[j + 1].0 != key);
            }
            assert(rest[k - 1] == entries[k]);
        }
    }
}

proof fn lemma_removed_is_filter(entries: Seq<(Seq<u8>, Seq<u8>)>, key: Seq<u8>)
    ensures
        removed(entries, key) == entries.filter(|entry: (Seq<u8>, Seq<u8>)| entry.0 != key),
    decreases entries.len(),
{
    let other = |entry: (Seq<u8>, Seq<u8>)| entry.0 != key;
    reveal(Seq::filter);
    if entries.len() > 0 {
        let first = seq![entries[0]];
        let rest = entries.drop_first();
        lemma_removed_is_filter(rest, key);
        assert(entries == first + rest);
        Seq::filter_distributes_over_add(first, rest, other);
        assert(first.drop_last() == Seq::<(Seq<u8>, Seq<u8>)>::empty());
        assert(first.drop_last().filter(other) == Seq::<(Seq<u8>, Seq<u8>)>::empty());
        assert(first.filter(other) == (if entries[0].0 == key {
            Seq::<(Seq<u8>, Seq<u8>)>::empty()
        } else {
            first
        }));
        assert(removed(entries, key) == first.filter(other) + rest.filter(other));
    }
}

/// A header whose name is new comes last; otherwise it takes the place of the
/// first header of its name, and the others of that name go. All other headers
/// stay, in their order.
pub proof fn law_insert_keeps_places(
    entries: Seq<(Seq<u8>, Seq<u8>)>,
    key: Seq<u8>,
    value: Seq<u8>,
    k: int,
)
    requires
        0 <= k <= entries.len(),
        forall|j: int| 0 <= j < k ==> (#[trigger] entries[j]).0 != key,
        k < entries.len() ==> entries[k].0 == key,
    ensures
        k == entries.len() ==> inserted(entries, key, value) == entries.push((key, value)),
        k < entries.len() ==> inserted(entries, key, value) == entries.take(k).push((key, value))
            + entries.skip(k + 1).filter(|entry: (Seq<u8>, Seq<u8>)| entry.0 != key),
    decreases k,
{
    if k == entries.len() {
        lemma_inserted_new(entries, key, value);
    } else if k == 0 {
        lemma_removed_is_filter(entries.drop_first(), key);
        assert(entries.skip(1) == entries.drop_first());
        assert(entries.take(0).push((key, value)) == seq![(key, value)]);
    } else {
        let rest = entries.drop_first();
        assert(entries[0].0 != key);
        assert forall|j: int| 0 <= j < k - 1 implies (#[trigger] rest[j]).0 != key by {
            assert(entries[j + 1].0 != key);
        }
        law_insert_keeps_places(rest, key, value, k - 1);
        assert(rest.skip(k) == entries.skip(k + 1));
        assert(seq![entries[0]] + rest.take(k - 1).push((key, value)) == entries.take(k).push(
            (key, value),
        ));
        assert(inserted(entries, key, value) == entries.take(k).push((key, value)) + rest.skip(
            k,
        ).filter(|entry: (Seq<u8>, Seq<u8>)| entry.0 != key));
    }
}

/// A line splits at its first colon: what stands before it is the name, in
/// whatever case, and every byte behind it belongs to the value, whatever the
/// name is. A line without a colon has no meaning.
pub proof fn law_line_splits_at_first_colon(name: Seq<u8>, value: Seq<u8>)
    requires
        !name.contains(58),
    ensures
        decode_line(name) is NoColon,
        is_header_name(name) && is_header_value(value) ==> decode_line(name + seq![58u8] + value)
            == Decoded::Value((header_key(name), value)),
        !is_header_name(name) ==> decode_line(name + seq![58u8] + value) == Decoded::<
            (Seq<u8>, Seq<u8>),
        >::Refused(DecodeError::InvalidName),
        is_header_name(name) && !is_header_value(value) ==> decode_line(name + seq![58u8] + value)
            == Decoded::<(Seq<u8>, Seq<u8>)>::Refused(DecodeError::InvalidValue),
{
    let n = name.len() as int;
    let line = name + seq![58u8] + value;
    assert forall|i: int| 0 <= i < n implies name[i] != 58 by {
        assert(name.contains(name[i]));
    }
    lemma_find_is(name, COLON, n);
    lemma_find_is(line, COLON, n);
    assert(line.take(n) == name);
    assert(line.skip(n + 1) == value);
}

/// Whether two names differ at most in the case of their letters.
pub open spec fn same_letters(a: Seq<u8>, b: Seq<u8>) -> bool {
    &&& a.len() == b.len()
    &&& forall|i: int|
        0 <= i < a.len() ==> #[trigger] a[i] == b[i] || (65 <= a[i] <= 90 && b[i] == a[i] + 32) || (
        65 <= b[i] <= 90 && a[i] == b[i] + 32)
}

/// What a line stands for does not hang on the case of its name.
pub proof fn law_line_ignores_case_of_name(a: Seq<u8>, b: Seq<u8>, value: Seq<u8>)
    requires
        !a.contains(58),
        same_letters(a, b),
    ensures
        decode_line(a + seq![58u8] + value) == decode_line(b + seq![58u8] + value),
{
    if b.contains(58) {
        let i = choose|i: int| 0 <= i < b.len() && b[i] == 58;
        assert(a[i] == 58);
    }
    law_lookup_ignores_case(Seq::empty(), a, b);
    assert forall|i: int| 0 <= i < a.len() implies name_byte(#[trigger] a[i]) == name_byte(
        b[i],
    ) by {}
    assert(header_key(a) == header_key(b));
    law_line_splits_at_first_colon(a, value);
    law_line_splits_at_first_colon(b, value);
}

/// A text of headers is decoded line by line. A further line adds its header to
/// those of the lines before it, whichever line ending it has, and a line that
/// is not proper decides.
pub proof fn law_decoding_goes_line_by_line(text: Seq<u8>, line: Seq<u8>)
    requires
        text.len() == 0 || text.last() == 10,
        !line.contains(10),
    ensures
        decode_headers(Seq::empty()) == Decoded::Value(Seq::<(Seq<u8>, Seq<u8>)>::empty()),
        ({
            let after = match decode_headers(text) {
                Decoded::Value(entries) => match decode_line(line) {
                    Decoded::Value((key, value)) => Decoded::Value(inserted(entries, key, value)),
                    Decoded::Refused(error) => Decoded::Refused(error),
                    Decoded::NoColon => Decoded::NoColon,
                },
                other => other,
            };
            &&& line.len() == 0 || line.last() != 13 ==> decode_headers(text + line.push(10))
                == after
            &&& decode_headers(text + line.push(13).push(10)) == after
            &&& line.len() > 0 ==> decode_headers(text + line) == after
        }),
{
    assert forall|i: int| 0 <= i < line.len() implies line[i] != 10 by {
        assert(line.contains(line[i]));
    }
    let none = Seq::<u8>::empty();
    law_lines(line, none);
    assert(lines(none) == Seq::<Seq<u8>>::empty());
    assert(seq![line] + lines(none) == seq![line]);
    assert(line.push(10) + none == line.push(10));
    assert(line.push(13).push(10) + none == line.push(13).push(10));
    lemma_lines_append(text, line.push(10));
    lemma_lines_append(text, line.push(13).push(10));
    lemma_lines_append(text, line);
    let all = lines(text) + seq![line];
    assert(all.drop_last() == lines(text));
    assert(all.last() == line);
}

/// What comes behind a line that is not proper changes nothing.
pub proof fn law_first_bad_line_decides(text: Seq<u8>, more: Seq<u8>)
    requires
        text.len() == 0 || text.last() == 10,
        !(decode_headers(text) is Value),
    ensures
        decode_headers(text + more) == decode_headers(text),
{
    lemma_lines_append(text, more);
    lemma_decode_lines_stops(lines(text), lines(more));
}

/// The text that a guest writes for headers: a line for each, with its name, a
/// colon, its value and a line feed.
pub open spec fn header_text(headers: Seq<(Seq<u8>, Seq<u8>)>) -> Seq<u8>
    decreases headers.len(),
{
    if headers.len() == 0 {
        Seq::empty()
    } else {
        header_text(headers.drop_last()) + (headers.last().0 + seq![58u8] + headers.last().1).push(
            10,
        )
    }
}

/// Headers with their names in the form under which a map keeps them.
pub open spec fn with_keys(headers: Seq<(Seq<u8>, Seq<u8>)>) -> Seq<(Seq<u8>, Seq<u8>)> {
    Seq::new(headers.len(), |i: int| (header_key(headers[i].0), headers[i].1))
}

/// Whether headers have proper names, in whatever case, and proper values.
pub open spec fn proper_headers(headers: Seq<(Seq<u8>, Seq<u8>)>) -> bool {
    forall|i: int|
        0 <= i < headers.len() ==> is_header_name((#[trigger] headers[i]).0) && is_header_value(
            headers[i].1,
        )
}

proof fn lemma_collapsed_last(entries: Seq<(Seq<u8>, Seq<u8>)>, k: int)
    requires
        0 <= k < entries.len(),
        forall|j: int| k < j < entries.len() ==> (#[trigger] entries[j]).0 != entries[k].0,
    ensures
        lookup(collapsed(entries), entries[k].0) == Some(entries[k].1),
    decreases entries.len(),
{
    let init = entries.drop_last();
    let last = entries.last();
    let before = collapsed(init);
    law_insert_then_lookup(before, last.0, last.1, entries[k].0);
    if k < entries.len() - 1 {
        assert(entries[entries.len() - 1].0 != entries[k].0);
        assert forall|j: int| k < j < init.len() implies (#[trigger] init[j]).0 != init[k].0 by {
            assert(init[j] == entries[j]);
        }
        lemma_collapsed_last(init, k);
    }
}

/// Decoding takes every header of a text, in whatever case its name is written:
/// under the lower-case name stands, byte for byte, all that follows the first
/// colon of the last line with that name.
pub proof fn law_decoding_takes_whole_values(headers: Seq<(Seq<u8>, Seq<u8>)>, k: int)
    requires
        proper_headers(headers),
    ensures
        decode_headers(header_text(headers)) == Decoded::Value(collapsed(with_keys(headers))),
        distinct_names(with_keys(headers)) ==> decode_headers(header_text(headers))
            == Decoded::Value(with_keys(headers)),
        0 <= k < headers.len() && (forall|j: int|
            k < j < headers.len() ==> header_key((#[trigger] headers[j]).0) != header_key(
                headers[k].0,
            )) ==> (decode_headers(header_text(headers)) matches Decoded::Value(entries) && lookup(
            entries,
            header_key(headers[k].0),
        ) == Some(headers[k].1)),
{
    lemma_header_text(headers);
    let kept = with_keys(headers);
    if distinct_names(kept) {
        law_distinct_headers_stay(kept);
    }
    if 0 <= k < headers.len() && forall|j: int|
        k < j < headers.len() ==> header_key((#[trigger] headers[j]).0) != header_key(
            headers[k].0,
        ) {
        assert forall|j: int| k < j < kept.len() implies (#[trigger] kept[j]).0 != kept[k].0 by {
            assert(header_key(headers[j].0) != header_key(headers[k].0));
        }
        lemma_collapsed_last(kept, k);
    }
}

proof fn lemma_header_text(headers: Seq<(Seq<u8>, Seq<u8>)>)
    requires
        proper_headers(headers),
    ensures
        header_text(headers).len() == 0 || header_text(headers).last() == 10,
        decode_headers(header_text(headers)) == Decoded::Value(collapsed(with_keys(headers))),
    decreases headers.len(),
{
    if headers.len() == 0 {
        assert(with_keys(headers) == Seq::<(Seq<u8>, Seq<u8>)>::empty());
        law_decoding_goes_line_by_line(Seq::empty(), Seq::empty());
    } else {
        let init = headers.drop_last();
        let (name, value) = headers.last();
        assert(headers[headers.len() - 1] == headers.last());
        assert forall|i: int| 0 <= i < init.len() implies is_header_name((#[trigger] init[i]).0)
            && is_header_value(init[i].1) by {
            assert(init[i] == headers[i]);
        }
        lemma_header_text(init);
        let line = name + seq![58u8] + value;
        law_name_characters(name);
        law_value_characters(value);
        if name.contains(58) {
            let i = choose|i: int| 0 <= i < name.len() && name[i] == 58;
            assert(name[i] == 58);
        }
        assert forall|i: int| 0 <= i < line.len() implies line[i] != 10 && line[i] != 13 by {
            if i < name.len() {
                assert(line[i] == name[i]);
            } else if i > name.len() {
                assert(line[i] == value[i - name.len() - 1]);
                assert(value.contains(line[i]));
            }
        }
        law_line_splits_at_first_colon(name, value);
        law_decoding_goes_line_by_line(header_text(init), line);
        assert(with_keys(headers).drop_last() == with_keys(init));
        assert(with_keys(headers).last() == (header_key(name), value));
    }
}

/// Two texts of headers that differ only in the case of names decode to the
/// same headers.
pub proof fn law_decoding_ignores_case_of_names(
    a: Seq<(Seq<u8>, Seq<u8>)>,
    b: Seq<(Seq<u8>, Seq<u8>)>,
)
    requires
        proper_headers(a),
        a.len() == b.len(),
        forall|i: int|
            0 <= i < a.len() ==> same_letters((#[trigger] a[i]).0, b[i].0) && a[i].1 == b[i].1,
    ensures
        decode_headers(header_text(a)) == decode_headers(header_text(b)),
{
    assert forall|i: int| 0 <= i < a.len() implies is_header_name((#[trigger] b[i]).0)
        && is_header_value(b[i].1) && header_key(a[i].0) == header_key(b[i].0) by {
        let (x, y) = (a[i].0, b[i].0);
        law_lookup_ignores_case(Seq::empty(), x, y);
        assert forall|j: int| 0 <= j < x.len() implies name_byte(#[trigger] x[j]) == name_byte(
            y[j],
        ) by {}
        assert(header_key(x) == header_key(y));
    }
    lemma_header_text(a);
    lemma_header_text(b);
    assert(with_keys(a) == with_keys(b));
}

proof fn lemma_lines_of_prefix(text: Seq<u8>, n: int) -> (k: int)
    requires
        0 <= n <= lines(text).len(),
    ensures
        0 <= k <= text.len(),
        lines(text.take(k)) == lines(text).take(n),
    decreases text.len(),
{
    if n == 0 {
        assert(lines(text.take(0)) == lines(text).take(0));
        0
    } else {
        lemma_find(text, LF);
        let f = find(text, LF);
        if f == text.len() {
            assert(other_lines(text).len() == 0);
            assert(lines(other_lines(text)) == Seq::<Seq<u8>>::empty());
            assert(lines(text) == seq![text]);
            assert(text.take(text.len() as int) == text);
            assert(lines(text).take(n) == lines(text));
            text.len() as int
        } else {
            let rest = text.skip(f + 1);
            let head = text.take(f + 1);
            let j = lemma_lines_of_prefix(rest, n - 1);
            assert(head + rest == text);
            lemma_lines_append(head, rest);
            lemma_lines_append(head, rest.take(j));
            assert(lines(text) == seq![first_line(text)] + lines(rest));
            assert(lines(head).len() == 1);
            assert(text.take(f + 1 + j) == head + rest.take(j));
            assert((lines(head) + lines(rest)).take(n) == lines(head) + lines(rest).take(n - 1));
            f + 1 + j
        }
    }
}

/// There are too many headers for a map to be sure of its place only if the
/// text has more than 6553 lines, and some part at its start decodes to more
/// than 6553 headers.
pub proof fn law_too_many_headers_are_many(text: Seq<u8>)
    requires
        overfull(text),
    ensures
        lines(text).len() > 6553,
        exists|k: int|
            0 <= k <= text.len() && (decode_headers(#[trigger] text.take(k)) matches Decoded::Value(
                entries,
            ) && entries.len() > 6553),
{
    let n = choose|n: int|
        0 <= n <= lines(text).len() && (#[trigger] decode_lines(
            lines(text).take(n),
        ) matches Decoded::Value(entries) && entries.len() > ROOM);
    lemma_decoded_len(lines(text).take(n));
    let k = lemma_lines_of_prefix(text, n);
    assert(decode_headers(text.take(k)) == decode_lines(lines(text).take(n)));
}

proof fn lemma_decoded_len(all: Seq<Seq<u8>>)
    ensures
        decode_lines(all) matches Decoded::Value(entries) ==> entries.len() <= all.len(),
    decreases all.len(),
{
    if all.len() > 0 && decode_lines(all) is Value {
        lemma_decoded_len(all.drop_last());
        let (key, value) = decode_line(all.last())->Value_0;
        lemma_inserted_len(decode_lines(all.drop_last())->Value_0, key, value);
    }
}

/// The text of headers grows by exactly one line for a further header: its
/// name, a colon, its whole value and a line feed. A value that is not UTF-8, a
/// name with a control character or a separator, or a value with a control
/// character stand in the way, and are told apart in this order.
pub proof fn law_text_grows_by_a_line(
    entries: Seq<(Seq<u8>, Seq<u8>)>,
    name: Seq<u8>,
    value: Seq<u8>,
)
    ensures
        encode_headers(Seq::empty()) == Ok::<Seq<u8>, EncodeError>(Seq::empty()),
        encode_headers(entries) matches Err(error) ==> encode_headers(entries.push((name, value)))
            == Err::<Seq<u8>, EncodeError>(error),
        encode_headers(entries) matches Ok(text) ==> {
            let bad_name = exists|i: int|
                0 <= i < decode_utf8(name).len() && ({
                    let c = #[trigger] decode_utf8(name)[i] as int;
                    c <= 31 || 127 <= c <= 159 || c == 40 || c == 41 || c == 44 || c == 47 || 58
                        <= c <= 64 || 91 <= c <= 93 || c == 123 || c == 125
                });
            let bad_value = exists|i: int|
                0 <= i < decode_utf8(value).len() && ((#[trigger] decode_utf8(value)[i]) as int <= 31
                    || 127 <= decode_utf8(value)[i] as int <= 159);
            encode_headers(entries.push((name, value))) == (if !valid_utf8(value) {
                Err::<Seq<u8>, EncodeError>(EncodeError::InvalidUtf8)
            } else if bad_name {
                Err(EncodeError::InvalidName)
            } else if bad_value {
                Err(EncodeError::InvalidValue)
            } else {
                Ok(text + name + seq![58u8] + value + seq![10u8])
            })
        },
{
    let all = entries.push((name, value));
    assert(all.drop_last() == entries);
    assert(all.last() == (name, value));
    law_control_codes(decode_utf8(value));
    let chars = decode_utf8(name);
    assert forall|i: int| 0 <= i < chars.len() implies ((is_control(#[trigger] chars[i])
        || is_separator(chars[i])) <==> ({
        let c = chars[i] as int;
        c <= 31 || 127 <= c <= 159 || c == 40 || c == 41 || c == 44 || c == 47 || 58 <= c <= 64
            || 91 <= c <= 93 || c == 123 || c == 125
    })) by {}
    if let Ok(text) = encode_headers(entries) {
        assert(text + (name + seq![COLON] + value + seq![LF]) == text + name + seq![58u8] + value
            + seq![10u8]);
    }
}

/// Putting headers into an empty map one after the other adds them one by one,
/// and leaves each name with the value that came last.
pub proof fn law_last_value_stays(
    entries: Seq<(Seq<u8>, Seq<u8>)>,
    key: Seq<u8>,
    value: Seq<u8>,
    k: int,
)
    ensures
        collapsed(Seq::empty()) == Seq::<(Seq<u8>, Seq<u8>)>::empty(),
        collapsed(entries.push((key, value))) == inserted(collapsed(entries), key, value),
        0 <= k < entries.len() && (forall|j: int|
            k < j < entries.len() ==> (#[trigger] entries[j]).0 != entries[k].0) ==> lookup(
            collapsed(entries),
            entries[k].0,
        ) == Some(entries[k].1),
{
    assert(entries.push((key, value)).drop_last() == entries);
    if 0 <= k < entries.len() && forall|j: int|
        k < j < entries.len() ==> (#[trigger] entries[j]).0 != entries[k].0 {
        lemma_collapsed_last(entries, k);
    }
}

/// A name is in stored form exactly if it has the length of a name and writing
/// it once more changes nothing.
pub proof fn law_stored_names_are_fixed(
    entries: Seq<(Seq<u8>, Seq<u8>)>,
    name: Seq<u8>,
    value: Seq<u8>,
)
    ensures
        stored_names(entries.push((name, value))) <==> stored_names(entries) && 1 <= name.len()
            <= 65535 && header_key(name) == name,
{
    let all = entries.push((name, value));
    if stored_names(all) {
        assert forall|i: int| 0 <= i < entries.len() implies is_stored_name(
            (#[trigger] entries[i]).0,
        ) by {
            assert(all[i] == entries[i]);
        }
        assert(all[entries.len() as int].0 == name);
    }
    if stored_names(entries) && is_stored_name(name) {
        assert forall|i: int| 0 <= i < all.len() implies is_stored_name((#[trigger] all[i]).0) by {
            if i < entries.len() {
                assert(all[i] == entries[i]);
            }
        }
    }
}

} // verus!
