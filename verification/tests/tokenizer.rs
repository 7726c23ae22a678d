use ajson::bytes::{scan_compound, scan_literal, scan_mark, scan_string};
use ajson::element::{read_one, Element};
use ajson::error::Error;

#[test]
fn string_runs_to_its_closing_quote() {
    let (found, rest) = read_one(br#""ab\"c", 1"#).unwrap();
    assert_eq!(found, Some(Element::String(br#""ab\"c""#)));
    assert_eq!(rest, b", 1");
}

#[test]
fn leading_separators_are_passed_over() {
    let (found, rest) = read_one(b" : , 12]").unwrap();
    assert_eq!(found, Some(Element::Number(b"12")));
    assert_eq!(rest, b"]");
}

#[test]
fn object_runs_to_its_matching_bracket() {
    let (found, rest) = read_one(br#"{"a":{"b":"}"}},2"#).unwrap();
    assert_eq!(found, Some(Element::Object(br#"{"a":{"b":"}"}}"#)));
    assert_eq!(rest, b",2");
}

#[test]
fn array_runs_to_its_matching_bracket() {
    let (found, rest) = read_one(b"[1,[2,3]] tail").unwrap();
    assert_eq!(found, Some(Element::Array(b"[1,[2,3]]")));
    assert_eq!(rest, b" tail");
}

#[test]
fn literals_by_first_byte() {
    assert_eq!(read_one(b"true,").unwrap(), (Some(Element::Boolean(b"true")), &b","[..]));
    assert_eq!(read_one(b"false}").unwrap(), (Some(Element::Boolean(b"false")), &b"}"[..]));
    assert_eq!(read_one(b"null ").unwrap(), (Some(Element::Null(b"null")), &b" "[..]));
    assert_eq!(read_one(b"-1.5e3").unwrap(), (Some(Element::Number(b"-1.5e3")), &b""[..]));
}

#[test]
fn closing_bracket_before_a_value_ends_the_container() {
    assert_eq!(read_one(b" ] , 1").unwrap(), (None, &b" , 1"[..]));
    assert_eq!(read_one(b"}").unwrap(), (None, &b""[..]));
}

#[test]
fn end_of_input_yields_nothing() {
    assert_eq!(read_one(b"").unwrap(), (None, &b""[..]));
    assert_eq!(read_one(b" , : ").unwrap(), (None, &b""[..]));
}

#[test]
fn unterminated_string_is_string_error() {
    assert_eq!(read_one(br#""abc"#), Err(Error::String));
    assert_eq!(read_one(br#""abc\""#), Err(Error::String));
}

#[test]
fn unbalanced_object_is_object_error() {
    assert_eq!(read_one(br#"{"a":[1,2]"#), Err(Error::Object));
}

#[test]
fn unbalanced_array_is_array_error() {
    assert_eq!(read_one(b"[1,[2,3]"), Err(Error::Array));
    assert_eq!(read_one(br#"["a]"#), Err(Error::Array));
}

#[test]
fn scanners_return_exact_ends() {
    assert_eq!(scan_string(br#""a\"b"x"#, 1), Some(6));
    assert_eq!(scan_string(br#""a\"#, 1), None);
    assert_eq!(scan_compound(b"[[]]x", 1), Some(4));
    assert_eq!(scan_compound(b"[[]", 1), None);
    assert_eq!(scan_literal(b"123,4", 0), 3);
    assert_eq!(scan_literal(b"123", 0), 3);
    assert_eq!(scan_mark(b" ,:x1", 0), 4);
    assert_eq!(scan_mark(b" ,:", 0), 3);
}
