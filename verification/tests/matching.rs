use ajson::element::Element;
use ajson::number::{index_name, parse_decimal, parse_index};
use ajson::path::{bytes_equal, bytes_less, Operator, Query};
use ajson::wild::is_match;

#[test]
fn wild_cards() {
    assert!(is_match(b"", b""));
    assert!(!is_match(b"", b"a"));
    assert!(is_match(b"abc", b"abc"));
    assert!(!is_match(b"abc", b"abd"));
    assert!(!is_match(b"abc", b"ab"));
    assert!(is_match(b"*", b""));
    assert!(is_match(b"*", b"anything"));
    assert!(is_match(b"a*c", b"ac"));
    assert!(is_match(b"a*c", b"abbbc"));
    assert!(!is_match(b"a*c", b"abbb"));
    assert!(is_match(b"a?c", b"abc"));
    assert!(!is_match(b"a?c", b"ac"));
    assert!(is_match(b"*a*b*", b"xxaxxbxx"));
    assert!(!is_match(b"*a*b*", b"xxbxxaxx"));
}

#[test]
fn escaped_wild_cards_stand_for_themselves() {
    assert!(is_match(br"a\*c", b"a*c"));
    assert!(!is_match(br"a\*c", b"abc"));
    assert!(is_match(br"a\?", b"a?"));
    assert!(is_match(br"a\\b", br"a\b"));
    assert!(is_match(b"a\\", b"a\\"));
}

#[test]
fn indices() {
    assert_eq!(parse_index(b"0"), Some(0));
    assert_eq!(parse_index(b"007"), Some(7));
    assert_eq!(parse_index(b"1234567890"), Some(1234567890));
    assert_eq!(parse_index(b""), None);
    assert_eq!(parse_index(b"-1"), None);
    assert_eq!(parse_index(b"+1"), None);
    assert_eq!(parse_index(b"1a"), None);
    assert_eq!(parse_index(b"#"), None);
    assert_eq!(parse_index(usize::MAX.to_string().as_bytes()), Some(usize::MAX));
    assert_eq!(parse_index(b"99999999999999999999999999999999999999999"), None);
}

#[test]
fn positions_in_decimal() {
    assert_eq!(index_name(0), b"0");
    assert_eq!(index_name(9), b"9");
    assert_eq!(index_name(10), b"10");
    assert_eq!(index_name(1234567890), b"1234567890");
    assert_eq!(parse_index(&index_name(usize::MAX)), Some(usize::MAX));
}

const SCALE: i128 = 1_000_000_000_000_000_000;

#[test]
fn decimals() {
    assert_eq!(parse_decimal(b"0"), Some(0));
    assert_eq!(parse_decimal(b"1"), Some(SCALE));
    assert_eq!(parse_decimal(b"-1"), Some(-SCALE));
    assert_eq!(parse_decimal(b"12.5"), Some(12 * SCALE + SCALE / 2));
    assert_eq!(parse_decimal(b"-0.25"), Some(-SCALE / 4));
    assert_eq!(parse_decimal(b"1.000"), Some(SCALE));
    assert_eq!(parse_decimal(b"0.000000000000000001"), Some(1));
    assert_eq!(parse_decimal(b"999999999999999999.999999999999999999"), Some(SCALE * SCALE - 1));
}

#[test]
fn texts_that_are_no_decimals() {
    assert_eq!(parse_decimal(b""), None);
    assert_eq!(parse_decimal(b"-"), None);
    assert_eq!(parse_decimal(b"."), None);
    assert_eq!(parse_decimal(b"1."), None);
    assert_eq!(parse_decimal(b".5"), None);
    assert_eq!(parse_decimal(b"1e3"), None);
    assert_eq!(parse_decimal(b"1.5x"), None);
    assert_eq!(parse_decimal(b"1.2.3"), None);
    assert_eq!(parse_decimal(b"+1"), None);
    assert_eq!(parse_decimal(b"1000000000000000000"), None);
    assert_eq!(parse_decimal(b"0.0000000000000000001"), None);
}

#[test]
fn byte_comparisons() {
    assert!(bytes_equal(b"", b""));
    assert!(bytes_equal(b"abc", b"abc"));
    assert!(!bytes_equal(b"abc", b"abd"));
    assert!(!bytes_equal(b"abc", b"ab"));
    assert!(bytes_less(b"", b"a"));
    assert!(bytes_less(b"a", b"ab"));
    assert!(bytes_less(b"ab", b"b"));
    assert!(!bytes_less(b"b", b"ab"));
    assert!(!bytes_less(b"a", b"a"));
    assert!(!bytes_less(b"a", b""));
}

fn query<'a>(op: Operator, value: &'a [u8]) -> Query<'a> {
    Query { on: true, all: false, path: b"", op, value }
}

#[test]
fn numbers_compare_by_value() {
    let n = Element::Number(b"10.0");
    assert!(query(Operator::Equal, b"10").match_element(&n));
    assert!(!query(Operator::NotEqual, b"10").match_element(&n));
    assert!(query(Operator::Less, b"10.5").match_element(&n));
    assert!(query(Operator::LessEqual, b"10").match_element(&n));
    assert!(query(Operator::Greater, b"9").match_element(&n));
    assert!(!query(Operator::Greater, b"10").match_element(&n));
    assert!(query(Operator::GreaterEqual, b"-3").match_element(&n));
    assert!(!query(Operator::Like, b"1*").match_element(&n));
    assert!(!query(Operator::NotLike, b"1*").match_element(&n));
    assert!(!query(Operator::Equal, b"\"10\"").match_element(&n));
    assert!(!query(Operator::Equal, b"1e1").match_element(&n));
    assert!(!query(Operator::Equal, b"10").match_element(&Element::Number(b"1e1")));
}

#[test]
fn strings_compare_byte_by_byte() {
    let s = Element::String(b"\"bob\"");
    assert!(query(Operator::Equal, b"\"bob\"").match_element(&s));
    assert!(!query(Operator::Equal, b"\"Bob\"").match_element(&s));
    assert!(query(Operator::NotEqual, b"\"Bob\"").match_element(&s));
    assert!(query(Operator::Less, b"\"carl\"").match_element(&s));
    assert!(query(Operator::LessEqual, b"\"bob\"").match_element(&s));
    assert!(query(Operator::Greater, b"\"bo\"").match_element(&s));
    assert!(query(Operator::GreaterEqual, b"\"bob\"").match_element(&s));
    assert!(query(Operator::Like, b"\"b*\"").match_element(&s));
    assert!(query(Operator::NotLike, b"\"c*\"").match_element(&s));
    assert!(!query(Operator::Equal, b"bob").match_element(&s));
    assert!(!query(Operator::NotEqual, b"5").match_element(&s));
}

#[test]
fn words_compare_for_equality_only() {
    let t = Element::Boolean(b"true");
    assert!(query(Operator::Equal, b"true").match_element(&t));
    assert!(!query(Operator::Equal, b"false").match_element(&t));
    assert!(query(Operator::NotEqual, b"false").match_element(&t));
    assert!(query(Operator::NotEqual, b"null").match_element(&t));
    assert!(!query(Operator::NotEqual, b"1").match_element(&t));
    assert!(!query(Operator::Less, b"true").match_element(&t));
    let n = Element::Null(b"null");
    assert!(query(Operator::Equal, b"null").match_element(&n));
    assert!(!query(Operator::NotEqual, b"null").match_element(&n));
}

#[test]
fn without_an_operator_everything_passes() {
    assert!(query(Operator::Exists, b"").match_element(&Element::Count(3)));
    assert!(query(Operator::Exists, b"").match_element(&Element::Null(b"null")));
}

#[test]
fn composites_and_containers_never_pass_a_comparison() {
    assert!(!query(Operator::Equal, b"[1]").match_element(&Element::Array(b"[1]")));
    assert!(!query(Operator::Equal, b"1").match_element(&Element::Count(1)));
    assert!(!query(Operator::NotEqual, b"1").match_element(&Element::List(vec![])));
}
