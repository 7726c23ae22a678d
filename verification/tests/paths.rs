use ajson::path::{Operator, Path, SubSelector};
use ajson::syntax::parse_path;

#[test]
fn plain_key() {
    let p = parse_path(b"name");
    assert!(p.ok);
    assert_eq!(p.part, b"name");
    assert!(!p.more());
    assert!(!p.arrch);
    assert!(!p.has_selectors());
    assert!(!p.query.on);
}

#[test]
fn dotted_chain() {
    let p = parse_path(b"a.b.2");
    assert!(p.ok && p.more());
    assert_eq!(p.part, b"a");
    let q = p.next.as_ref().unwrap();
    assert!(q.ok && q.more());
    assert_eq!(q.part, b"b");
    let r = q.next.as_ref().unwrap();
    assert!(r.ok && !r.more());
    assert_eq!(r.part, b"2");
}

#[test]
fn escaped_dot_stays_in_the_key() {
    let p = parse_path(br"a\.b.c");
    assert_eq!(p.part, br"a\.b");
    assert_eq!(p.next.as_ref().unwrap().part, b"c");
    assert!(p.is_match(b"a.b"));
    assert!(!p.is_match(b"axb"));
}

#[test]
fn empty_expression_is_invalid() {
    let p = parse_path(b"");
    assert!(!p.ok);
}

#[test]
fn trailing_dot_invalidates_the_last_segment() {
    let p = parse_path(b"a.");
    assert!(p.ok);
    assert!(p.more());
    assert!(!p.next.as_ref().unwrap().ok);
}

#[test]
fn count_marker() {
    let p = parse_path(b"#");
    assert!(p.ok && p.arrch && !p.more() && !p.query.on);
    let p = parse_path(b"#.name");
    assert!(p.ok && p.arrch && p.more());
    assert_eq!(p.next.as_ref().unwrap().part, b"name");
}

#[test]
fn filter_with_operator() {
    let p = parse_path(b"#(price >= 10)#.name");
    assert!(p.ok && p.more());
    assert_eq!(p.part, b"#(price >= 10)#");
    assert!(p.query.on && p.query.all);
    assert_eq!(p.query.path, b"price");
    assert_eq!(p.query.op, Operator::GreaterEqual);
    assert_eq!(p.query.value, b"10");
}

#[test]
fn every_operator_is_read() {
    let cases: [(&[u8], Operator); 9] = [
        (b"#(a==1)", Operator::Equal),
        (b"#(a=1)", Operator::Equal),
        (b"#(a!=1)", Operator::NotEqual),
        (b"#(a<1)", Operator::Less),
        (b"#(a<=1)", Operator::LessEqual),
        (b"#(a>1)", Operator::Greater),
        (b"#(a>=1)", Operator::GreaterEqual),
        (b"#(a%\"x*\")", Operator::Like),
        (b"#(a!%\"x*\")", Operator::NotLike),
    ];
    for (text, op) in cases {
        let p = parse_path(text);
        assert!(p.ok);
        assert!(p.query.on && !p.query.all);
        assert_eq!(p.query.path, b"a");
        assert_eq!(p.query.op, op);
    }
}

#[test]
fn filter_without_operator_tests_existence() {
    let p = parse_path(b"#(name)");
    assert!(p.ok && p.query.on && !p.query.all);
    assert_eq!(p.query.path, b"name");
    assert_eq!(p.query.op, Operator::Exists);
    assert_eq!(p.query.value, b"");
}

#[test]
fn filter_without_path_compares_the_element() {
    let p = parse_path(b"#(>3)#");
    assert!(p.ok && p.query.on && p.query.all);
    assert_eq!(p.query.path, b"");
    assert!(!p.query.has_path());
    assert_eq!(p.query.op, Operator::Greater);
    assert_eq!(p.query.value, b"3");
}

#[test]
fn unclosed_filter_is_invalid() {
    assert!(!parse_path(b"#(a>1").ok);
    assert!(!parse_path(b"#(a!1)").ok);
    assert!(!parse_path(b"#(a>1)x").ok);
}

#[test]
fn object_group() {
    let p = parse_path(b"{x:a.b,y:c}");
    assert!(p.ok && p.has_selectors() && !p.arrsel && !p.more());
    assert_eq!(
        p.selectors,
        Some(vec![
            SubSelector { name: b"x".to_vec(), path: b"a.b" },
            SubSelector { name: b"y".to_vec(), path: b"c" },
        ])
    );
}

#[test]
fn array_group_with_continuation() {
    let p = parse_path(b"[a,b.#(c>1)#].0");
    assert!(p.ok && p.has_selectors() && p.arrsel && p.more());
    assert_eq!(p.part, b"[a,b.#(c>1)#]");
    assert_eq!(
        p.selectors,
        Some(vec![
            SubSelector { name: b"0".to_vec(), path: b"a" },
            SubSelector { name: b"1".to_vec(), path: b"b.#(c>1)#" },
        ])
    );
    assert_eq!(p.next.as_ref().unwrap().part, b"0");
}

#[test]
fn slots_of_a_bracket_group_are_named_by_position() {
    let p = parse_path(b"[a,b,c,d,e,f,g,h,i,j,k]");
    let names: Vec<Vec<u8>> = p.selectors.unwrap().into_iter().map(|s| s.name).collect();
    assert_eq!(names[0], b"0");
    assert_eq!(names[9], b"9");
    assert_eq!(names[10], b"10");
}

#[test]
fn item_without_colon_names_itself() {
    let p = parse_path(b"{a}");
    assert_eq!(p.selectors, Some(vec![SubSelector { name: b"a".to_vec(), path: b"a" }]));
}

#[test]
fn unclosed_group_is_invalid() {
    assert!(!parse_path(b"{a:b").ok);
    assert!(!parse_path(b"[a,b").ok);
    assert!(!parse_path(b"{a:b}x").ok);
}

#[test]
fn parse_is_also_a_method() {
    assert_eq!(Path::parse(b"a.#(b==\"c\")"), parse_path(b"a.#(b==\"c\")"));
}
