use http::header::{HeaderName, HeaderValue};
use http::HeaderMap;
use wasi_experimental_http_wasmer::headers::{
    header_map_to_string, string_to_header_map, string_to_header_map_checked, DecodeError,
    EncodeError,
};
use wasi_experimental_http_wasmer::text::{any_control, split_line, split_once};

fn entries(map: &HeaderMap) -> Vec<(String, Vec<u8>)> {
    map.iter().map(|(name, value)| (name.to_string(), value.as_bytes().to_vec())).collect()
}

fn entry(name: &str, value: &str) -> (String, Vec<u8>) {
    (name.to_string(), value.as_bytes().to_vec())
}

#[test]
fn decodes_lines() {
    let map = string_to_header_map("Content-Type:text/plain\r\nX-A: 1:2\n").unwrap();
    assert_eq!(entries(&map), vec![entry("content-type", "text/plain"), entry("x-a", " 1:2")]);
}

#[test]
fn empty_text_has_no_headers() {
    assert_eq!(string_to_header_map("").unwrap().len(), 0);
}

#[test]
fn last_line_ending_is_optional() {
    assert_eq!(
        entries(&string_to_header_map("a:1\nb:2").unwrap()),
        entries(&string_to_header_map("a:1\nb:2\n").unwrap())
    );
}

#[test]
fn later_header_takes_the_place_of_earlier() {
    let map = string_to_header_map("a:1\nb:2\nA:3\n").unwrap();
    assert_eq!(entries(&map), vec![entry("a", "3"), entry("b", "2")]);
}

#[test]
fn bad_names_are_refused() {
    assert_eq!(string_to_header_map(":1").unwrap_err(), DecodeError::InvalidName);
    assert_eq!(string_to_header_map("a b:1").unwrap_err(), DecodeError::InvalidName);
    assert_eq!(string_to_header_map("\u{e9}:1").unwrap_err(), DecodeError::InvalidName);
    assert_eq!(string_to_header_map("a(:\u{1}").unwrap_err(), DecodeError::InvalidName);
    let longest = "n".repeat(65535);
    assert!(string_to_header_map(&format!("{}:", longest)).is_ok());
    assert_eq!(
        string_to_header_map(&format!("{}n:", longest)).unwrap_err(),
        DecodeError::InvalidName
    );
}

#[test]
fn every_name_byte_is_judged_alike() {
    for b in 0u8..128 {
        let c = b as char;
        if c == ':' || c == '\n' {
            continue;
        }
        let allowed = c.is_ascii_alphanumeric() || "!\"#$%&'*+-.^_`|~".contains(c);
        let text = format!("x{}y:v", c);
        assert_eq!(string_to_header_map(&text).is_ok(), allowed, "byte {}", b);
    }
}

#[test]
fn bad_values_are_refused() {
    assert_eq!(string_to_header_map("a:\u{0}").unwrap_err(), DecodeError::InvalidValue);
    assert_eq!(string_to_header_map("a:\u{7f}").unwrap_err(), DecodeError::InvalidValue);
    // A carriage return that ends no line belongs to the value.
    assert_eq!(string_to_header_map("a:1\r").unwrap_err(), DecodeError::InvalidValue);
    assert!(string_to_header_map("a:\t\u{e9}\u{85}").is_ok());
}

#[test]
fn lines_without_colon_have_no_meaning() {
    assert!(string_to_header_map_checked("a").is_none());
    assert!(string_to_header_map_checked("\n").is_none());
    assert!(string_to_header_map_checked("a:1\n\nb:2").is_none());
    // A line that is refused before it decides.
    assert!(matches!(
        string_to_header_map_checked("a b:1\nc"),
        Some(Err(DecodeError::InvalidName))
    ));
}

#[test]
fn many_headers() {
    let mut text = String::new();
    for i in 0..6553 {
        text.push_str(&format!("h{}:{}\n", i, i));
    }
    assert_eq!(string_to_header_map(&text).unwrap().len(), 6553);
    for i in 6553..20000 {
        text.push_str(&format!("h{}:{}\n", i, i));
    }
    assert_eq!(string_to_header_map_checked(&text).unwrap().unwrap().len(), 20000);
    for i in 20000..40000 {
        text.push_str(&format!("h{}:{}\n", i, i));
    }
    assert!(string_to_header_map_checked(&text).is_none());
}

#[test]
fn encodes_headers_in_order() {
    let mut map = HeaderMap::new();
    map.insert("host", HeaderValue::from_static("example.com"));
    map.append("x-b", HeaderValue::from_static("1"));
    map.append("x-c", HeaderValue::from_bytes("\u{e9}".as_bytes()).unwrap());
    map.append("x-b", HeaderValue::from_static("2"));
    assert_eq!(
        header_map_to_string(&map),
        Ok("host:example.com\nx-b:1\nx-b:2\nx-c:\u{e9}\n".to_string())
    );
    assert_eq!(header_map_to_string(&HeaderMap::new()), Ok(String::new()));
}

#[test]
fn values_that_cannot_be_encoded() {
    let mut map = HeaderMap::new();
    map.insert("a", HeaderValue::from_bytes(&[0xff]).unwrap());
    assert_eq!(header_map_to_string(&map), Err(EncodeError::InvalidUtf8));
    let mut map = HeaderMap::new();
    map.insert("a", HeaderValue::from_static("x\ty"));
    assert_eq!(header_map_to_string(&map), Err(EncodeError::InvalidValue));
    let mut map = HeaderMap::new();
    map.insert("a", HeaderValue::from_str("\u{85}").unwrap());
    assert_eq!(header_map_to_string(&map), Err(EncodeError::InvalidValue));
}

#[test]
fn name_with_control_character_cannot_be_encoded() {
    // Long static names go into a map with their bad characters blotted out.
    let name = "aaaaaaaaaaaaaaaaaaaaaaaaaaaaaaaaaaaaaaaaaaaaaaaaaaaaaaaaaaaaaaaaaaaaaaaaa(";
    let mut map = HeaderMap::new();
    map.insert(name, HeaderValue::from_static("x"));
    assert_eq!(header_map_to_string(&map), Err(EncodeError::InvalidName));
}

#[test]
fn decoding_undoes_encoding() {
    let mut map = HeaderMap::new();
    map.insert(HeaderName::from_static("x-a"), HeaderValue::from_static(" a:b "));
    map.insert(HeaderName::from_static("x-b"), HeaderValue::from_static(""));
    map.insert(HeaderName::from_static("x-c"), HeaderValue::from_str("\u{20ac}").unwrap());
    let text = header_map_to_string(&map).unwrap();
    let back = string_to_header_map(&text).unwrap();
    assert_eq!(entries(&back), entries(&map));
    assert_eq!(header_map_to_string(&back).unwrap(), text);
}

#[test]
fn names_are_kept_in_lower_case() {
    let long = "X-LONG-NAME-0123456789-0123456789-0123456789-0123456789-0123456789-Z";
    assert!(long.len() > 64);
    let mut map = HeaderMap::new();
    map.insert("Content-TYPE", HeaderValue::from_static("a"));
    map.insert("X-Short", HeaderValue::from_static("b"));
    map.insert(long, HeaderValue::from_static("c"));
    let text = header_map_to_string(&map).unwrap();
    assert_eq!(text, format!("content-type:a\nx-short:b\n{}:c\n", long.to_lowercase()));
    assert_eq!(entries(&string_to_header_map(&text).unwrap()), entries(&map));
}

#[test]
fn several_values_collapse_to_the_last() {
    let mut map = HeaderMap::new();
    map.append("a", HeaderValue::from_static("1"));
    map.append("b", HeaderValue::from_static("2"));
    map.append("a", HeaderValue::from_static("3"));
    let back = string_to_header_map(&header_map_to_string(&map).unwrap()).unwrap();
    assert_eq!(entries(&back), vec![entry("a", "3"), entry("b", "2")]);
}

#[test]
fn splitting_lines() {
    assert_eq!(split_line("a\nb\nc"), ("a", "b\nc"));
    assert_eq!(split_line("a\r\nb"), ("a", "b"));
    assert_eq!(split_line("a\r"), ("a\r", ""));
    assert_eq!(split_line("\n"), ("", ""));
    assert_eq!(split_line("\r\r\n"), ("\r", ""));
    for text in ["a\nb\r\nc", "x\n\n\r\ny\n", "\u{e9}\n\u{20ac}\r", "\n\n"] {
        let mut rest = text;
        let mut found: Vec<&str> = Vec::new();
        while !rest.is_empty() {
            let (line, tail) = split_line(rest);
            found.push(line);
            rest = tail;
        }
        assert_eq!(found, text.lines().collect::<Vec<&str>>());
    }
}

#[test]
fn splitting_at_a_byte() {
    assert_eq!(split_once("k:v:w", b':'), Some(("k", "v:w")));
    assert_eq!(split_once("\u{20ac}:", b':'), Some(("\u{20ac}", "")));
    assert_eq!(split_once("kv", b':'), None);
}

#[test]
fn control_characters() {
    for code in 0..0x3000u32 {
        if let Some(c) = char::from_u32(code) {
            assert_eq!(any_control(&format!("a{}b", c)), c.is_control());
        }
    }
}
