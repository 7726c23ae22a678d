use ajson::element::{Element, Member};
use ajson::error::Error;
use ajson::parser::{
    array_bytes_get, bytes_get, element_get, element_ref_get, follow, object_bytes_get,
    select_to_array, select_to_object,
};
use ajson::path::{Path, SubSelector};

const DOC: &[u8] = br#"  {"name":{"first":"Tom","last":"Anderson"},"age":37,"children":["Sara","Alex","Jack"],"friends":[{"first":"Dale","age":44},{"first":"Roger","age":68},{"first":"Jane","age":47}]}"#;

fn lookup<'a>(doc: &'a [u8], path: &'a [u8]) -> Result<Option<Element<'a>>, Error> {
    bytes_get(doc, &Path::parse(path)).map(|r| r.0)
}

#[test]
fn invalid_path_finds_nothing() {
    assert_eq!(bytes_get(DOC, &Path::parse(b"")), Ok((None, &b""[..])));
    assert_eq!(lookup(DOC, b"name."), Ok(None));
}

#[test]
fn empty_buffer_finds_nothing() {
    assert_eq!(bytes_get(b"", &Path::parse(b"a")), Ok((None, &b""[..])));
}

#[test]
fn buffer_without_container_finds_nothing() {
    assert_eq!(bytes_get(b"12345", &Path::parse(b"a")), Ok((None, &b""[..])));
}

#[test]
fn nested_key() {
    assert_eq!(lookup(DOC, b"name.last"), Ok(Some(Element::String(br#""Anderson""#))));
}

#[test]
fn whole_container_is_a_span() {
    assert_eq!(
        lookup(DOC, b"name"),
        Ok(Some(Element::Object(br#"{"first":"Tom","last":"Anderson"}"#)))
    );
    assert_eq!(lookup(DOC, b"children"), Ok(Some(Element::Array(br#"["Sara","Alex","Jack"]"#))));
}

#[test]
fn remaining_bytes_follow_the_object() {
    let (found, rest) = bytes_get(br#"{"a":1,"b":2} tail"#, &Path::parse(b"a")).unwrap();
    assert_eq!(found, Some(Element::Number(b"1")));
    assert_eq!(rest, b" tail");
}

#[test]
fn remaining_bytes_follow_the_indexed_element() {
    let (found, rest) = bytes_get(b"[10,20,30]", &Path::parse(b"1")).unwrap();
    assert_eq!(found, Some(Element::Number(b"20")));
    assert_eq!(rest, b",30]");
}

#[test]
fn index_into_array() {
    assert_eq!(lookup(DOC, b"children.0"), Ok(Some(Element::String(br#""Sara""#))));
    assert_eq!(lookup(DOC, b"children.2"), Ok(Some(Element::String(br#""Jack""#))));
    assert_eq!(lookup(DOC, b"children.3"), Ok(None));
    assert_eq!(lookup(DOC, b"friends.1.first"), Ok(Some(Element::String(br#""Roger""#))));
}

#[test]
fn elements_after_the_index_are_not_read() {
    assert_eq!(lookup(br#"[1,2,"unterminated"#, b"1"), Ok(Some(Element::Number(b"2"))));
    assert_eq!(lookup(br#"[1,2,"unterminated"#, b"2"), Err(Error::String));
}

#[test]
fn count_and_collect() {
    assert_eq!(lookup(DOC, b"children.#"), Ok(Some(Element::Count(3))));
    assert_eq!(lookup(b"[]", b"#"), Ok(Some(Element::Count(0))));
    assert_eq!(
        lookup(DOC, b"friends.#.first"),
        Ok(Some(Element::List(vec![
            Element::String(br#""Dale""#),
            Element::String(br#""Roger""#),
            Element::String(br#""Jane""#),
        ])))
    );
}

#[test]
fn collect_drops_elements_without_the_key() {
    assert_eq!(
        lookup(br#"[{"a":1},{"b":2},{"a":3},4]"#, b"#.a"),
        Ok(Some(Element::List(vec![Element::Number(b"1"), Element::Number(b"3")])))
    );
}

#[test]
fn key_on_array_without_continuation_is_none() {
    assert_eq!(lookup(b"[1,2]", b"foo"), Ok(None));
}

#[test]
fn filters() {
    assert_eq!(
        lookup(DOC, b"friends.#(age>45)#.first"),
        Ok(Some(Element::List(vec![
            Element::String(br#""Roger""#),
            Element::String(br#""Jane""#),
        ])))
    );
    assert_eq!(
        lookup(DOC, b"friends.#(age>45).first"),
        Ok(Some(Element::String(br#""Roger""#)))
    );
    assert_eq!(lookup(DOC, b"friends.#(age>100)"), Ok(None));
    assert_eq!(lookup(DOC, b"friends.#(age>100)#"), Ok(Some(Element::List(vec![]))));
    assert_eq!(
        lookup(DOC, br#"friends.#(first=="Jane").age"#),
        Ok(Some(Element::Number(b"47")))
    );
    assert_eq!(
        lookup(DOC, br#"friends.#(first%"*a*")#.age"#),
        Ok(Some(Element::List(vec![Element::Number(b"44"), Element::Number(b"47")])))
    );
    assert_eq!(
        lookup(DOC, br#"children.#(!%"*a*")#"#),
        Ok(Some(Element::List(vec![Element::String(br#""Alex""#)])))
    );
    assert_eq!(
        lookup(DOC, br#"children.#(<"B")"#),
        Ok(Some(Element::String(br#""Alex""#)))
    );
}

#[test]
fn first_match_leaves_the_rest_unread() {
    let (found, rest) = bytes_get(b"[1,5,9,\"x", &Path::parse(b"#(>3)")).unwrap();
    assert_eq!(found, Some(Element::Number(b"5")));
    assert_eq!(rest, b",9,\"x");
}

#[test]
fn filter_on_missing_key_drops_the_element() {
    assert_eq!(
        lookup(br#"[{"a":1},{"b":2},7]"#, b"#(a==1)#"),
        Ok(Some(Element::List(vec![Element::Object(br#"{"a":1}"#)])))
    );
    assert_eq!(
        lookup(br#"[{"a":1},{"b":2},7]"#, b"#(b)#"),
        Ok(Some(Element::List(vec![Element::Object(br#"{"b":2}"#)])))
    );
}

#[test]
fn wildcard_keys() {
    assert_eq!(lookup(DOC, b"child*.1"), Ok(Some(Element::String(br#""Alex""#))));
    assert_eq!(lookup(DOC, b"c?ildren.0"), Ok(Some(Element::String(br#""Sara""#))));
    assert_eq!(lookup(DOC, b"*.first"), Ok(None));
}

#[test]
fn last_matching_member_wins() {
    assert_eq!(lookup(br#"{"a":1,"b":2,"a":3}"#, b"a"), Ok(Some(Element::Number(b"3"))));
    assert_eq!(lookup(br#"{"a":{"x":1},"a":{"y":2}}"#, b"a.x"), Ok(None));
    assert_eq!(lookup(br#"{"ab":1,"ac":2}"#, b"a*"), Ok(Some(Element::Number(b"2"))));
}

#[test]
fn leading_bytes_are_skipped() {
    assert_eq!(lookup(b"\xef\xbb\xbf garbage {\"a\":1}", b"a"), Ok(Some(Element::Number(b"1"))));
}

#[test]
fn key_that_is_not_a_string_is_an_error() {
    assert_eq!(lookup(br#"{1:2,"a":3}"#, b"a"), Err(Error::ObjectKey));
}

#[test]
fn malformed_member_before_any_match_is_an_error() {
    assert_eq!(lookup(br#"{"b":[1,2,"a":1"#, b"a"), Err(Error::Array));
    assert_eq!(lookup(br#"{"b":{"c":2,"a":1"#, b"a"), Err(Error::Object));
    assert_eq!(lookup(br#"{"b":"never closed"#, b"a"), Err(Error::String));
    assert_eq!(lookup(br#"{"b":1,"c"#, b"a"), Err(Error::String));
}

#[test]
fn malformed_member_after_the_match_does_not_matter() {
    assert_eq!(
        object_bytes_get(br#"{"a":1,"b":"never closed"#, &Path::parse(b"a")),
        Ok((Some(Element::Number(b"1")), &b""[..]))
    );
    assert_eq!(lookup(br#"{"a":1,"b":[1,2"#, b"a"), Ok(Some(Element::Number(b"1"))));
    assert_eq!(lookup(br#"{"a":1,"b":{"c":2"#, b"a"), Ok(Some(Element::Number(b"1"))));
    assert_eq!(lookup(br#"{"a":1,2:3}"#, b"a"), Ok(Some(Element::Number(b"1"))));
    assert_eq!(lookup(br#"{"a":{"x":7},"b":"never closed"#, b"a.x"), Ok(Some(Element::Number(b"7"))));
    assert_eq!(lookup(br#"{"a":1,"a":2,"b":"never closed"#, b"a"), Ok(Some(Element::Number(b"2"))));
}

#[test]
fn lookup_for_a_filter_yields_spans_only() {
    let array = Element::Array(b"[1]");
    assert_eq!(element_ref_get(&array, &Path::parse(b"#")), Ok(None));
    assert_eq!(element_ref_get(&array, &Path::parse(b"#(>0)#")), Ok(None));
    assert_eq!(element_ref_get(&array, &Path::parse(b"[0]")), Ok(None));
    assert_eq!(element_ref_get(&array, &Path::parse(b"{a:0}")), Ok(None));
    assert_eq!(element_ref_get(&array, &Path::parse(b"0")), Ok(Some(Element::Number(b"1"))));
    assert_eq!(lookup(br#"[{"a":[1,2]},{"b":3}]"#, b"#(a.#)#"), Ok(Some(Element::List(vec![]))));
    assert_eq!(
        lookup(br#"[{"a":[1,2]},{"b":3}]"#, b"#(a.0)#"),
        Ok(Some(Element::List(vec![Element::Object(br#"{"a":[1,2]}"#)])))
    );
}

#[test]
fn segment_that_is_not_utf8_on_an_array_is_path_error() {
    assert_eq!(lookup(b"[1,2]", b"\xff"), Err(Error::Path));
    assert_eq!(lookup(br#"{"a":[1,2]}"#, b"a.\xc3"), Err(Error::Path));
    assert_eq!(lookup(b"[1,2]", "\u{e9}".as_bytes()), Ok(None));
}

#[test]
fn groups() {
    assert_eq!(
        lookup(DOC, b"[name.first,age,missing,children.#]"),
        Ok(Some(Element::List(vec![
            Element::String(br#""Tom""#),
            Element::Number(b"37"),
            Element::Count(3),
        ])))
    );
    assert_eq!(
        lookup(DOC, b"{first:name.first,n:age,none:missing}"),
        Ok(Some(Element::Mapping(vec![
            Member { name: b"first".to_vec(), value: Element::String(br#""Tom""#) },
            Member { name: b"n".to_vec(), value: Element::Number(b"37") },
        ])))
    );
}

#[test]
fn later_slot_of_one_name_wins() {
    assert_eq!(
        lookup(DOC, b"{a:age,b:name.first,a:name.last}"),
        Ok(Some(Element::Mapping(vec![
            Member { name: b"a".to_vec(), value: Element::String(br#""Anderson""#) },
            Member { name: b"b".to_vec(), value: Element::String(br#""Tom""#) },
        ])))
    );
}

#[test]
fn group_with_continuation() {
    assert_eq!(lookup(DOC, b"{a:age,b:name}.b.last"), Ok(Some(Element::String(br#""Anderson""#))));
    assert_eq!(lookup(DOC, b"{a:age,b:name}.c"), Ok(None));
    assert_eq!(
        lookup(DOC, b"[name,friends.0].#.first"),
        Ok(Some(Element::List(vec![
            Element::String(br#""Tom""#),
            Element::String(br#""Dale""#),
        ])))
    );
    assert_eq!(lookup(DOC, b"[name,age].#"), Ok(Some(Element::Count(2))));
    assert_eq!(lookup(DOC, b"[name,age].1"), Ok(Some(Element::Number(b"37"))));
    assert_eq!(lookup(DOC, b"[name,age].0.first"), Ok(Some(Element::String(br#""Tom""#))));
    assert_eq!(lookup(DOC, b"[name,age].2"), Ok(None));
    assert_eq!(lookup(DOC, b"[name,age].first"), Ok(None));
    assert_eq!(lookup(DOC, b"[age,children.0,children.#].#(>2)#"), Ok(Some(Element::List(vec![
        Element::Number(b"37"),
    ]))));
}

#[test]
fn group_leaves_no_bytes() {
    let (_, rest) = bytes_get(DOC, &Path::parse(b"[age]")).unwrap();
    assert_eq!(rest, b"");
}

#[test]
fn error_in_a_slot_fails_the_group() {
    assert_eq!(lookup(br#"{"a":1,"b":"x"#, b"[a,b]"), Err(Error::String));
}

#[test]
fn select_functions() {
    let sels = [SubSelector { name: b"x".to_vec(), path: b"a" }, SubSelector { name: b"y".to_vec(), path: b"z" }];
    assert_eq!(
        select_to_array(br#"{"a":1}"#, &sels),
        Ok(Some(Element::List(vec![Element::Number(b"1")])))
    );
    assert_eq!(
        select_to_object(br#"{"a":1}"#, &sels),
        Ok(Some(Element::Mapping(vec![Member { name: b"x".to_vec(), value: Element::Number(b"1") }])))
    );
    assert_eq!(select_to_array(br#"{"a":1}"#, &[]), Ok(Some(Element::List(vec![]))));
    assert_eq!(select_to_object(br#"{"a":1}"#, &[]), Ok(Some(Element::Mapping(vec![]))));
}

#[test]
fn object_and_array_scanners() {
    assert_eq!(
        object_bytes_get(br#"{"a":1} x"#, &Path::parse(b"a")),
        Ok((Some(Element::Number(b"1")), &b" x"[..]))
    );
    assert_eq!(object_bytes_get(b"", &Path::parse(b"a")), Ok((None, &b""[..])));
    assert_eq!(object_bytes_get(br#"{"a":1"#, &Path::parse(b"a")), Ok((Some(Element::Number(b"1")), &b""[..])));
    assert_eq!(
        array_bytes_get(b"[1,2] x", &Path::parse(b"#")),
        Ok((Some(Element::Count(2)), &b" x"[..]))
    );
    assert_eq!(array_bytes_get(b"", &Path::parse(b"0")), Ok((None, &b""[..])));
    assert_eq!(array_bytes_get(b"[1,2] x", &Path::parse(b"5")), Ok((None, &b" x"[..])));
}

#[test]
fn element_get_on_spans_and_scalars() {
    let p = Path::parse(b"a");
    assert_eq!(element_get(Element::Object(br#"{"a":1}"#), &p), Ok(Some(Element::Number(b"1"))));
    assert_eq!(element_ref_get(&Element::Object(br#"{"a":1}"#), &p), Ok(Some(Element::Number(b"1"))));
    assert_eq!(element_get(Element::Number(b"1"), &p), Ok(None));
    assert_eq!(element_ref_get(&Element::String(br#""a""#), &p), Ok(None));
    assert_eq!(element_ref_get(&Element::List(vec![]), &p), Ok(None));
    assert_eq!(element_get(Element::Count(1), &p), Ok(None));
    let bad = Path::parse(b"");
    assert_eq!(element_get(Element::Object(br#"{"a":1}"#), &bad), Ok(None));
    assert_eq!(element_ref_get(&Element::Object(br#"{"a":1}"#), &bad), Ok(None));
}

#[test]
fn element_get_on_a_map() {
    let map = || {
        Element::Mapping(vec![
            Member { name: b"x".to_vec(), value: Element::Number(b"1") },
            Member { name: b"y".to_vec(), value: Element::Object(br#"{"z":2}"#) },
            Member { name: b"yy".to_vec(), value: Element::Number(b"3") },
        ])
    };
    assert_eq!(element_get(map(), &Path::parse(b"x")), Ok(Some(Element::Number(b"1"))));
    assert_eq!(element_get(map(), &Path::parse(b"y.z")), Ok(Some(Element::Number(b"2"))));
    assert_eq!(element_get(map(), &Path::parse(b"y*")), Ok(Some(Element::Object(br#"{"z":2}"#))));
    assert_eq!(element_get(map(), &Path::parse(b"w")), Ok(None));
}

#[test]
fn element_get_on_a_list() {
    let list = || {
        Element::List(vec![
            Element::Object(br#"{"a":1}"#),
            Element::Number(b"5"),
            Element::Object(br#"{"a":2}"#),
        ])
    };
    assert_eq!(element_get(list(), &Path::parse(b"#")), Ok(Some(Element::Count(3))));
    assert_eq!(element_get(list(), &Path::parse(b"0")), Ok(Some(Element::Object(br#"{"a":1}"#))));
    assert_eq!(element_get(list(), &Path::parse(b"1")), Ok(Some(Element::Number(b"5"))));
    assert_eq!(element_get(list(), &Path::parse(b"2.a")), Ok(Some(Element::Number(b"2"))));
    assert_eq!(element_get(list(), &Path::parse(b"1.a")), Ok(None));
    assert_eq!(element_get(list(), &Path::parse(b"3")), Ok(None));
    assert_eq!(element_get(list(), &Path::parse(b"key")), Ok(None));
    assert_eq!(
        element_get(list(), &Path::parse(b"#.a")),
        Ok(Some(Element::List(vec![Element::Number(b"1"), Element::Number(b"2")])))
    );
    assert_eq!(
        element_get(list(), &Path::parse(b"key.a")),
        Ok(Some(Element::List(vec![Element::Number(b"1"), Element::Number(b"2")])))
    );
    assert_eq!(
        element_get(list(), &Path::parse(b"#(a>1)#")),
        Ok(Some(Element::List(vec![Element::Object(br#"{"a":2}"#)])))
    );
    assert_eq!(
        element_get(list(), &Path::parse(b"#(a>0)#.a")),
        Ok(Some(Element::List(vec![Element::Number(b"1"), Element::Number(b"2")])))
    );
    assert_eq!(
        element_get(list(), &Path::parse(b"#(a>1)")),
        Ok(Some(Element::Object(br#"{"a":2}"#)))
    );
    assert_eq!(element_get(list(), &Path::parse(b"#(a>1).a")), Ok(Some(Element::Number(b"2"))));
    assert_eq!(element_get(list(), &Path::parse(b"#(a>5)")), Ok(None));
    assert_eq!(element_get(list(), &Path::parse(b"#(a>5)#")), Ok(Some(Element::List(vec![]))));
    assert_eq!(element_get(Element::List(vec![]), &Path::parse(b"#(a>0)")), Ok(None));
}

#[test]
fn filter_on_a_list_of_scalars() {
    let list = || Element::List(vec![Element::Number(b"5"), Element::Number(b"20")]);
    assert_eq!(element_get(list(), &Path::parse(b"#(>10)")), Ok(Some(Element::Number(b"20"))));
    assert_eq!(
        element_get(list(), &Path::parse(b"#(>10)#")),
        Ok(Some(Element::List(vec![Element::Number(b"20")])))
    );
    assert_eq!(element_get(list(), &Path::parse(b"0")), Ok(Some(Element::Number(b"5"))));
    assert_eq!(element_get(list(), &Path::parse(b"#")), Ok(Some(Element::Count(2))));
}

#[test]
fn follow_applies_a_continuation() {
    let p = Path::parse(b"x.a");
    assert_eq!(follow(Element::Object(br#"{"a":1}"#), &p.next), Ok(Some(Element::Number(b"1"))));
    assert_eq!(follow(Element::Number(b"7"), &None), Ok(Some(Element::Number(b"7"))));
    assert_eq!(
        element_get(Element::List(vec![Element::Object(br#"{"a":"x}"#)]), &Path::parse(b"#.a")),
        Err(Error::String)
    );
}
