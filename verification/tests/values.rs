use ajson::element::{Element, Member};
use ajson::error::Error;
use ajson::parser::{bytes_to_map, bytes_to_vec, get};
use ajson::value::{entries_from, unescape, values_from, Entry, Value};

fn text(s: &str) -> Vec<u8> {
    s.as_bytes().to_vec()
}

fn number(s: &str) -> Value {
    Value::Number(text(s))
}

fn entry(name: &str, value: Value) -> Entry {
    Entry { name: text(name), value }
}

#[test]
fn scalars_become_values() {
    assert_eq!(Element::Number(b"-1.50").to_value(), Ok(number("-1.50")));
    assert_eq!(Element::Boolean(b"true").to_value(), Ok(Value::Boolean(true)));
    assert_eq!(Element::Boolean(b"false").to_value(), Ok(Value::Boolean(false)));
    assert_eq!(Element::Null(b"null").to_value(), Ok(Value::Null));
    assert_eq!(Element::Count(4).to_value(), Ok(Value::Usize(4)));
    assert_eq!(Element::String(br#""a b""#).to_value(), Ok(Value::String(text("a b"))));
    assert_eq!(Element::String(b"").to_value(), Ok(Value::String(text(""))));
}

#[test]
fn containers_are_read_to_their_leaves() {
    assert_eq!(
        Element::Array(br#"[1, [2, "x"], {"k": [true]}]"#).to_value(),
        Ok(Value::Array(vec![
            number("1"),
            Value::Array(vec![number("2"), Value::String(text("x"))]),
            Value::Object(vec![entry("k", Value::Array(vec![Value::Boolean(true)]))]),
        ]))
    );
    assert_eq!(
        Element::Object(br#"{"a":{"b":{"c":null}},"d":[]}"#).to_value(),
        Ok(Value::Object(vec![
            entry("a", Value::Object(vec![entry("b", Value::Object(vec![entry("c", Value::Null)]))])),
            entry("d", Value::Array(vec![])),
        ]))
    );
    assert_eq!(Element::Array(b"").to_value(), Ok(Value::Array(vec![])));
    assert_eq!(Element::Object(b"").to_value(), Ok(Value::Object(vec![])));
}

#[test]
fn nested_duplicate_keys_keep_the_last_value() {
    assert_eq!(
        Element::Array(br#"[{"a":1,"b":2,"a":3}]"#).to_value(),
        Ok(Value::Array(vec![Value::Object(vec![entry("a", number("3")), entry("b", number("2"))])]))
    );
}

#[test]
fn what_cannot_be_read_in_a_container_is_an_error() {
    assert_eq!(Element::Object(br#"{"a":{1:2}}"#).to_value(), Err(Error::ObjectKey));
    assert_eq!(Element::Array(br#"[1,"x"#).to_value(), Err(Error::String));
    assert_eq!(
        Element::List(vec![Element::Number(b"1"), Element::Object(br#"{1:2}"#)]).to_value(),
        Err(Error::ObjectKey)
    );
}

#[test]
fn composites_keep_their_shape() {
    let e = Element::List(vec![
        Element::Number(b"1"),
        Element::Mapping(vec![Member { name: text("k"), value: Element::Array(b"[2]") }]),
    ]);
    assert_eq!(
        e.to_value(),
        Ok(Value::Array(vec![
            number("1"),
            Value::Object(vec![entry("k", Value::Array(vec![number("2")]))]),
        ]))
    );
}

#[test]
fn simple_escapes() {
    assert_eq!(unescape(br#"a\"b\\c\/d"#), text("a\"b\\c/d"));
    assert_eq!(unescape(br#"\b\f\n\r\t"#), vec![8, 12, 10, 13, 9]);
    assert_eq!(unescape(br#"\x"#), text("x"));
    assert_eq!(unescape(b"tail\\"), text("tail\\"));
    assert_eq!(unescape(b""), text(""));
}

#[test]
fn unicode_escapes() {
    assert_eq!(unescape(br#"\u0041"#), text("A"));
    assert_eq!(unescape(br#"\u00e9"#), text("\u{e9}"));
    assert_eq!(unescape(br#"\u00E9"#), text("\u{e9}"));
    assert_eq!(unescape(br#"\u20ac"#), text("\u{20ac}"));
    assert_eq!(unescape(br#"x\ud83d\ude00y"#), text("x\u{1f600}y"));
    assert_eq!(unescape(br#"\ud83dz"#), text("\u{fffd}z"));
    assert_eq!(unescape(br#"\ude00"#), text("\u{fffd}"));
    assert_eq!(unescape(br#"\ud83d\u0041"#), text("\u{fffd}A"));
    assert_eq!(unescape(br#"\u12"#), text("u12"));
    assert_eq!(unescape(br#"\u12g4"#), text("u12g4"));
}

#[test]
fn get_decodes_strings() {
    assert_eq!(
        get(br#"{"s":"line\nbreak \u00e9"}"#, b"s"),
        Ok(Some(Value::String(text("line\nbreak \u{e9}"))))
    );
}

#[test]
fn get_on_booleans_and_null() {
    let doc = br#"{"t":true,"f":false,"n":null}"#;
    assert_eq!(get(doc, b"t"), Ok(Some(Value::Boolean(true))));
    assert_eq!(get(doc, b"f"), Ok(Some(Value::Boolean(false))));
    assert_eq!(get(doc, b"n"), Ok(Some(Value::Null)));
}

#[test]
fn get_reads_a_container_to_its_leaves() {
    assert_eq!(
        get(br#"{"a":{"b":[1,{"c":2}]}}"#, b"a"),
        Ok(Some(Value::Object(vec![entry(
            "b",
            Value::Array(vec![number("1"), Value::Object(vec![entry("c", number("2"))])])
        )])))
    );
    assert_eq!(get(br#"{"a":{"b":[1,{2:3}]}}"#, b"a"), Err(Error::ObjectKey));
    assert_eq!(get(br#"{"a":{"b":[1,{2:3}]},"c":4}"#, b"c"), Ok(Some(number("4"))));
}

#[test]
fn get_with_invalid_path_is_none() {
    assert_eq!(get(br#"{"a":1}"#, b""), Ok(None));
    assert_eq!(get(br#"{"a":1}"#, b"#(a"), Ok(None));
    assert_eq!(get(b"", b"a"), Ok(None));
}

#[test]
fn document_to_vec() {
    assert_eq!(
        bytes_to_vec(br#" [1, "two", [3], {"four":4}, true, null] "#),
        Ok(vec![
            number("1"),
            Value::String(text("two")),
            Value::Array(vec![number("3")]),
            Value::Object(vec![entry("four", number("4"))]),
            Value::Boolean(true),
            Value::Null,
        ])
    );
}

#[test]
fn document_to_vec_edge_cases() {
    assert_eq!(bytes_to_vec(b""), Ok(vec![]));
    assert_eq!(bytes_to_vec(b"["), Ok(vec![]));
    assert_eq!(bytes_to_vec(b"[]"), Ok(vec![]));
    assert_eq!(bytes_to_vec(b"no array here"), Ok(vec![]));
    assert_eq!(bytes_to_vec(b"[1,2"), Ok(vec![number("1"), number("2")]));
    assert_eq!(bytes_to_vec(br#"[1,"x"#), Err(Error::String));
    assert_eq!(bytes_to_vec(b"[1,[2"), Err(Error::Array));
    assert_eq!(bytes_to_vec(br#"[1,{"a":2"#), Err(Error::Object));
    assert_eq!(bytes_to_vec(br#"[1,{2:3}]"#), Err(Error::ObjectKey));
}

#[test]
fn document_to_map() {
    assert_eq!(
        bytes_to_map(br#"  {"a":1,"b":[1,2,3]}"#),
        Ok(vec![
            entry("a", number("1")),
            entry("b", Value::Array(vec![number("1"), number("2"), number("3")])),
        ])
    );
    assert_eq!(
        bytes_to_map(br#" {"a":1,"b":"x","a":{"c":[2]}} "#),
        Ok(vec![
            entry("a", Value::Object(vec![entry("c", Value::Array(vec![number("2")]))])),
            entry("b", Value::String(text("x"))),
        ])
    );
}

#[test]
fn document_to_map_edge_cases() {
    assert_eq!(bytes_to_map(b""), Ok(vec![]));
    assert_eq!(bytes_to_map(b"{"), Ok(vec![]));
    assert_eq!(bytes_to_map(b"{}"), Ok(vec![]));
    assert_eq!(bytes_to_map(b"[1,2]"), Err(Error::Object));
    assert_eq!(bytes_to_map(br#"{"a":1,2:3}"#), Err(Error::ObjectKey));
    assert_eq!(bytes_to_map(br#"{"a":"x"#), Err(Error::String));
    assert_eq!(bytes_to_map(br#"{"a":[1"#), Err(Error::Array));
    assert_eq!(bytes_to_map(br#"{"a":{"b":1"#), Err(Error::Object));
    assert_eq!(bytes_to_map(br#"{"a"}"#), Ok(vec![]));
    assert_eq!(bytes_to_map(br#"{"k\"":1}"#), Ok(vec![entry(r#"k\""#, number("1"))]));
}

#[test]
fn readers_of_container_insides() {
    assert_eq!(values_from(b"1,2]"), Ok(vec![number("1"), number("2")]));
    assert_eq!(values_from(b""), Ok(vec![]));
    assert_eq!(entries_from(br#""a":[1]}"#), Ok(vec![entry("a", Value::Array(vec![number("1")]))]));
    assert_eq!(entries_from(b"1:2}"), Err(Error::ObjectKey));
}
