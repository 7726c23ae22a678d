use ajson::error::Error;
use ajson::parser::get;
use ajson::value::{Entry, Value};

const DOC: &[u8] = br#"{"a":1,"b":[1,2,3]}"#;

const ITEMS: &[u8] = br#"{"items":[{"price":5},{"price":20},{"price":15}]}"#;

fn number(text: &str) -> Value {
    Value::Number(text.as_bytes().to_vec())
}

fn priced(price: &str) -> Value {
    Value::Object(vec![Entry { name: b"price".to_vec(), value: number(price) }])
}

#[test]
fn scalar_leaf_in_array() {
    assert_eq!(get(DOC, b"b.1"), Ok(Some(number("2"))));
}

#[test]
fn scalar_leaf_in_object() {
    assert_eq!(get(DOC, b"a"), Ok(Some(number("1"))));
}

#[test]
fn missing_key_is_none() {
    assert_eq!(get(DOC, b"z"), Ok(None));
}

#[test]
fn index_out_of_range_is_none() {
    assert_eq!(get(DOC, b"b.3"), Ok(None));
    assert_eq!(get(DOC, b"b.100"), Ok(None));
}

#[test]
fn count_of_array() {
    assert_eq!(get(br#"{"b":[1,2,3]}"#, b"b.#"), Ok(Some(Value::Usize(3))));
}

#[test]
fn filter_collects_every_match() {
    assert_eq!(
        get(ITEMS, b"items.#(price>10)#"),
        Ok(Some(Value::Array(vec![priced("20"), priced("15")])))
    );
}

#[test]
fn filter_first_match() {
    assert_eq!(get(ITEMS, b"items.#(price>10)"), Ok(Some(priced("20"))));
}

#[test]
fn multi_selector_builds_map() {
    assert_eq!(
        get(ITEMS, b"{x:items.0.price,y:items.1.price}"),
        Ok(Some(Value::Object(vec![
            Entry { name: b"x".to_vec(), value: number("5") },
            Entry { name: b"y".to_vec(), value: number("20") },
        ])))
    );
}

#[test]
fn repeated_get_is_identical() {
    let first = get(ITEMS, b"items.#(price>=15)#.price");
    let second = get(ITEMS, b"items.#(price>=15)#.price");
    assert_eq!(first, second);
    assert_eq!(first, Ok(Some(Value::Array(vec![number("20"), number("15")]))));
}

#[test]
fn unterminated_string_at_target_is_an_error() {
    assert_eq!(get(br#"{"a":"abc"#, b"a"), Err(Error::String));
}

#[test]
fn malformed_sibling_does_not_matter() {
    assert_eq!(get(br#"{"junk":[1,,tru,nul],"a":7}"#, b"a"), Ok(Some(number("7"))));
}

#[test]
fn malformed_member_after_the_target_does_not_matter() {
    assert_eq!(get(br#"{"a":1,"b":"never closed"#, b"a"), Ok(Some(number("1"))));
    assert_eq!(get(br#"{"a":1,"b":[1,2"#, b"a"), Ok(Some(number("1"))));
}

#[test]
fn duplicate_keys_last_wins() {
    assert_eq!(get(br#"{"a":1,"a":2}"#, b"a"), Ok(Some(number("2"))));
}
