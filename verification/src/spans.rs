//! Nothing is copied: every span that a lookup yields is a piece of the
//! buffer that was searched.

use crate::bytes::{
    compound_end, is_closer, is_opener, lemma_compound_end_bounds, lemma_literal_end_bounds,
    lemma_next_mark_bounds, lemma_string_end_bounds, literal_end, next_mark, string_end,
    OPEN_BRACE, QUOTE,
};
use crate::element::{lemma_read_one_advances, read_one_spec, ElementView, MemberView};
use crate::parser::{
    array_bytes_get_spec, array_nth, array_scan_spec, bytes_get_spec, collects, element_get_spec,
    element_ref_get_spec, first_match, first_only, first_opener, follow_spec,
    lemma_member_position, lemma_selectors_weight_index, list_scan_spec,
    object_bytes_get_spec, object_scan, passes_spec, segment_index, select_to_array_spec,
    select_to_object_spec, with_member,
};
use crate::path::{selectors_weight, unquoted, PathView, SubSelectorView};
use crate::syntax::{lemma_parse_weight, parse_spec};
use crate::wild::wild_matches;
use vstd::prelude::*;
use vstd::utf8::valid_utf8;

verus! {

/// Whether `raw` is the run of bytes of `s` from index `i` up to `j`.
pub open spec fn is_span_at(raw: Seq<u8>, s: Seq<u8>, i: int, j: int) -> bool {
    0 <= i <= j <= s.len() && raw == s.subrange(i, j)
}

/// Whether `raw` is a run of consecutive bytes of `s`.
#[verifier::opaque]
pub open spec fn is_span_of(raw: Seq<u8>, s: Seq<u8>) -> bool {
    exists|i: int, j: int| is_span_at(raw, s, i, j)
}

/// The bytes of `s` from `i` up to `j` are a run of consecutive bytes of
/// `s`.
pub proof fn lemma_span_intro(s: Seq<u8>, i: int, j: int)
    requires
        0 <= i <= j <= s.len(),
    ensures
        is_span_of(s.subrange(i, j), s),
{
    reveal(is_span_of);
    assert(is_span_at(s.subrange(i, j), s, i, j));
}

/// Whether every span in an element, at any depth, is a piece of `s`.
pub open spec fn within(e: ElementView, s: Seq<u8>) -> bool
    decreases e,
{
    match e {
        ElementView::String(raw) => is_span_of(raw, s),
        ElementView::Number(raw) => is_span_of(raw, s),
        ElementView::Boolean(raw) => is_span_of(raw, s),
        ElementView::Null(raw) => is_span_of(raw, s),
        ElementView::Array(raw) => is_span_of(raw, s),
        ElementView::Object(raw) => is_span_of(raw, s),
        ElementView::List(l) => forall|i: int| 0 <= i < l.len() ==> within(#[trigger] l[i], s),
        ElementView::Mapping(m) => forall|i: int|
            0 <= i < m.len() ==> within((#[trigger] m[i]).value, s),
        ElementView::Count(_) => true,
    }
}

/// Whether every element of a list lies within `s`.
pub open spec fn all_within(l: Seq<ElementView>, s: Seq<u8>) -> bool {
    forall|i: int| 0 <= i < l.len() ==> within(#[trigger] l[i], s)
}

/// Whether every value of a map lies within `s`.
pub open spec fn members_within(m: Seq<MemberView>, s: Seq<u8>) -> bool {
    forall|i: int| 0 <= i < m.len() ==> within((#[trigger] m[i]).value, s)
}

/// A piece of a piece of a buffer is a piece of that buffer.
pub proof fn lemma_span_of_span(a: Seq<u8>, b: Seq<u8>, c: Seq<u8>)
    requires
        is_span_of(a, b),
        is_span_of(b, c),
    ensures
        is_span_of(a, c),
{
    reveal(is_span_of);
    let (i, j) = choose|i: int, j: int| is_span_at(a, b, i, j);
    let (x, y) = choose|x: int, y: int| is_span_at(b, c, x, y);
    assert(a =~= c.subrange(x + i, x + j));
    assert(is_span_at(a, c, x + i, x + j));
}

/// A buffer is a piece of itself, and so is each of its ends.
pub proof fn lemma_span_of_self(s: Seq<u8>, i: int)
    requires
        0 <= i <= s.len(),
    ensures
        is_span_of(s, s),
        is_span_of(s.subrange(i, s.len() as int), s),
        is_span_of(Seq::<u8>::empty(), s),
{
    assert(s =~= s.subrange(0, s.len() as int));
    assert(Seq::<u8>::empty() =~= s.subrange(0, 0));
    lemma_span_intro(s, 0, s.len() as int);
    lemma_span_intro(s, i, s.len() as int);
    lemma_span_intro(s, 0, 0);
}

/// What lies within a piece of a buffer lies within that buffer.
pub proof fn lemma_within_piece(e: ElementView, t: Seq<u8>, s: Seq<u8>)
    requires
        within(e, t),
        is_span_of(t, s),
    ensures
        within(e, s),
    decreases e,
{
    match e {
        ElementView::String(raw) => lemma_span_of_span(raw, t, s),
        ElementView::Number(raw) => lemma_span_of_span(raw, t, s),
        ElementView::Boolean(raw) => lemma_span_of_span(raw, t, s),
        ElementView::Null(raw) => lemma_span_of_span(raw, t, s),
        ElementView::Array(raw) => lemma_span_of_span(raw, t, s),
        ElementView::Object(raw) => lemma_span_of_span(raw, t, s),
        ElementView::List(l) => {
            assert forall|i: int| 0 <= i < l.len() implies within(#[trigger] l[i], s) by {
                lemma_within_piece(l[i], t, s);
            }
        },
        ElementView::Mapping(m) => {
            assert forall|i: int| 0 <= i < m.len() implies within((#[trigger] m[i]).value, s) by {
                lemma_within_piece(m[i].value, t, s);
            }
        },
        ElementView::Count(_) => {},
    }
}

/// What the tokenizer reads is a piece of its input, and so is what
/// remains.
pub proof fn lemma_read_one_within(s: Seq<u8>)
    ensures
        read_one_spec(s) matches Ok((found, rest)) ==> is_span_of(rest, s) && (found matches Some(
            v,
        ) ==> within(v, s)),
{
    let i = next_mark(s, 0);
    let n = s.len() as int;
    lemma_next_mark_bounds(s, 0);
    lemma_span_of_self(s, 0);
    if i >= n {
    } else if is_closer(s[i]) {
        lemma_span_intro(s, i + 1, n);
    } else if s[i] == QUOTE {
        lemma_string_end_bounds(s, i + 1);
        match string_end(s, i + 1) {
            Some(e) => {
                lemma_span_intro(s, e, n);
                lemma_span_intro(s, i, e);
            },
            None => {},
        }
    } else if is_opener(s[i]) {
        lemma_compound_end_bounds(s, i + 1, 1);
        match compound_end(s, i + 1, 1) {
            Some(e) => {
                lemma_span_intro(s, e, n);
                lemma_span_intro(s, i, e);
            },
            None => {},
        }
    } else {
        lemma_literal_end_bounds(s, i);
        let e = literal_end(s, i);
        lemma_span_intro(s, e, n);
        lemma_span_intro(s, i, e);
    }
}

proof fn lemma_object_scan_within(
    t: Seq<u8>,
    part: Seq<u8>,
    found: Option<ElementView>,
    s: Seq<u8>,
)
    requires
        is_span_of(t, s),
        found matches Some(f) ==> within(f, s),
    ensures
        object_scan(t, part, found) matches Ok((r, rest)) ==> is_span_of(rest, s) && (r matches Some(
            v,
        ) ==> within(v, s)),
    decreases t.len(),
{
    lemma_read_one_within(t);
    lemma_span_of_self(s, 0);
    match read_one_spec(t) {
        Ok((None, rest)) => {
            lemma_span_of_span(rest, t, s);
        },
        Ok((Some(ElementView::String(raw)), rest)) => {
            lemma_read_one_within(rest);
            lemma_span_of_span(rest, t, s);
            match read_one_spec(rest) {
                Ok((None, after)) => {
                    lemma_span_of_span(after, rest, s);
                },
                Ok((Some(v), after)) => {
                    lemma_read_one_advances(t);
                    lemma_read_one_advances(rest);
                    lemma_span_of_span(after, rest, s);
                    lemma_within_piece(v, rest, s);
                    lemma_object_scan_within(
                        after,
                        part,
                        if wild_matches(part, unquoted(raw)) {
                            Some(v)
                        } else {
                            found
                        },
                        s,
                    );
                },
                Err(_) => {},
            }
        },
        _ => {},
    }
}

proof fn lemma_array_nth_within(t: Seq<u8>, k: nat, s: Seq<u8>)
    requires
        is_span_of(t, s),
    ensures
        array_nth(t, k) matches Ok((r, rest)) ==> is_span_of(rest, s) && (r matches Some(v)
            ==> within(v, s)),
    decreases t.len(),
{
    lemma_read_one_within(t);
    match read_one_spec(t) {
        Ok((None, rest)) => {
            lemma_span_of_span(rest, t, s);
        },
        Ok((Some(v), rest)) => {
            lemma_read_one_advances(t);
            lemma_span_of_span(rest, t, s);
            lemma_within_piece(v, t, s);
            if k > 0 {
                lemma_array_nth_within(rest, (k - 1) as nat, s);
            }
        },
        Err(_) => {},
    }
}

proof fn lemma_first_match_member(m: Seq<MemberView>, part: Seq<u8>, i: int)
    requires
        0 <= i,
    ensures
        first_match(m, part, i) matches Some((k, v)) ==> i <= k < m.len() && v == m[k].value,
    decreases m.len() - i,
{
    if i < m.len() && !wild_matches(part, m[i].name) {
        lemma_first_match_member(m, part, i + 1);
    }
}

proof fn lemma_with_member_within(
    m: Seq<MemberView>,
    name: Seq<u8>,
    value: ElementView,
    s: Seq<u8>,
)
    requires
        members_within(m, s),
        within(value, s),
    ensures
        members_within(with_member(m, name, value), s),
{
    lemma_member_position(m, name, 0);
    let r = with_member(m, name, value);
    assert forall|i: int| 0 <= i < r.len() implies within((#[trigger] r[i]).value, s) by {
        if i < m.len() {
            assert(within(m[i].value, s));
        }
    }
}

/// Every span in what a lookup yields is a piece of the buffer that was
/// searched, and so is what remains: nothing is copied and nothing comes
/// from elsewhere.
pub proof fn law_spans_lie_within_the_buffer(s: Seq<u8>, p: PathView)
    ensures
        bytes_get_spec(s, p) matches Ok((found, rest)) ==> is_span_of(rest, s) && (found matches Some(
            e,
        ) ==> within(e, s)),
    decreases p.weight(), 2nat, 0nat,
{
    lemma_span_of_self(s, 0);
    if !p.ok || s.len() == 0 {
    } else if let Some(sels) = p.selectors {
        if p.arrsel {
            lemma_select_to_array_within(s, sels, 0, Seq::empty());
            match select_to_array_spec(s, sels, 0, Seq::empty()) {
                Ok(l) => {
                    assert(within(ElementView::List(l), s));
                    lemma_follow_within(ElementView::List(l), p.next, s);
                },
                Err(_) => {},
            }
        } else {
            lemma_select_to_object_within(s, sels, 0, Seq::empty());
            match select_to_object_spec(s, sels, 0, Seq::empty()) {
                Ok(m) => {
                    assert(within(ElementView::Mapping(m), s));
                    lemma_follow_within(ElementView::Mapping(m), p.next, s);
                },
                Err(_) => {},
            }
        }
    } else {
        let i = first_opener(s, 0);
        lemma_first_opener_in(s, 0);
        if i < s.len() {
            let sub = s.subrange(i, s.len() as int);
            lemma_span_of_self(s, i);
            if s[i] == OPEN_BRACE {
                lemma_object_bytes_get_within(sub, p, s);
            } else {
                lemma_array_bytes_get_within(sub, p, s);
            }
        }
    }
}

proof fn lemma_first_opener_in(s: Seq<u8>, i: int)
    requires
        0 <= i <= s.len(),
    ensures
        i <= first_opener(s, i) <= s.len(),
    decreases s.len() - i,
{
    if i < s.len() && !is_opener(s[i]) {
        lemma_first_opener_in(s, i + 1);
    }
}

proof fn lemma_select_to_array_within(
    s: Seq<u8>,
    sels: Seq<SubSelectorView>,
    i: int,
    acc: Seq<ElementView>,
)
    requires
        0 <= i,
        all_within(acc, s),
    ensures
        select_to_array_spec(s, sels, i, acc) matches Ok(l) ==> all_within(l, s),
    decreases selectors_weight(sels), 4nat, sels.len() - i,
{
    if i < sels.len() {
        lemma_parse_weight(sels[i].path);
        lemma_selectors_weight_index(sels, i);
        law_spans_lie_within_the_buffer(s, parse_spec(sels[i].path));
        match bytes_get_spec(s, parse_spec(sels[i].path)) {
            Ok((Some(v), _)) => {
                lemma_select_to_array_within(s, sels, i + 1, acc.push(v));
            },
            Ok((None, _)) => {
                lemma_select_to_array_within(s, sels, i + 1, acc);
            },
            Err(_) => {},
        }
    }
}

proof fn lemma_select_to_object_within(
    s: Seq<u8>,
    sels: Seq<SubSelectorView>,
    i: int,
    acc: Seq<MemberView>,
)
    requires
        0 <= i,
        members_within(acc, s),
    ensures
        select_to_object_spec(s, sels, i, acc) matches Ok(m) ==> members_within(m, s),
    decreases selectors_weight(sels), 4nat, sels.len() - i,
{
    if i < sels.len() {
        lemma_parse_weight(sels[i].path);
        lemma_selectors_weight_index(sels, i);
        law_spans_lie_within_the_buffer(s, parse_spec(sels[i].path));
        match bytes_get_spec(s, parse_spec(sels[i].path)) {
            Ok((Some(v), _)) => {
                lemma_with_member_within(acc, sels[i].name, v, s);
                lemma_select_to_object_within(s, sels, i + 1, with_member(acc, sels[i].name, v));
            },
            Ok((None, _)) => {
                lemma_select_to_object_within(s, sels, i + 1, acc);
            },
            Err(_) => {},
        }
    }
}

proof fn lemma_follow_within(e: ElementView, next: Option<Box<PathView>>, s: Seq<u8>)
    requires
        within(e, s),
    ensures
        follow_spec(e, next) matches Ok(Some(r)) ==> within(r, s),
    decreases
        match next {
            Some(n) => n.weight(),
            None => 0,
        },
        4nat,
        0nat,
{
    match next {
        Some(n) => {
            law_element_get_within(e, *n, s);
        },
        None => {},
    }
}

/// Every span in what a lookup in an element yields is a piece of the
/// buffer that the element's spans are pieces of.
pub proof fn law_element_get_within(e: ElementView, p: PathView, s: Seq<u8>)
    requires
        within(e, s),
    ensures
        element_get_spec(e, p) matches Ok(Some(r)) ==> within(r, s),
        element_ref_get_spec(e, p) matches Ok(Some(r)) ==> within(r, s),
    decreases p.weight(), 3nat, 0nat,
{
    if p.ok {
        match e {
            ElementView::Array(span) => {
                law_spans_lie_within_the_buffer(span, p);
                match bytes_get_spec(span, p) {
                    Ok((Some(r), _)) => {
                        lemma_within_piece(r, span, s);
                    },
                    _ => {},
                }
            },
            ElementView::Object(span) => {
                law_spans_lie_within_the_buffer(span, p);
                match bytes_get_spec(span, p) {
                    Ok((Some(r), _)) => {
                        lemma_within_piece(r, span, s);
                    },
                    _ => {},
                }
            },
            ElementView::Mapping(m) => {
                lemma_first_match_member(m, p.part, 0);
                match first_match(m, p.part, 0) {
                    Some((k, v)) => {
                        assert(within(m[k].value, s));
                        lemma_follow_within(v, p.next, s);
                    },
                    None => {},
                }
            },
            ElementView::List(l) => {
                match segment_index(p.part) {
                    Some(k) => {
                        if k < l.len() {
                            assert(within(l[k as int], s));
                            lemma_follow_within(l[k as int], p.next, s);
                        }
                    },
                    None => {
                        lemma_list_scan_within(l, p, 0, 0, Seq::empty(), s);
                    },
                }
            },
            _ => {},
        }
    }
}

proof fn lemma_list_scan_within(
    l: Seq<ElementView>,
    p: PathView,
    i: int,
    count: nat,
    acc: Seq<ElementView>,
    s: Seq<u8>,
)
    requires
        0 <= i,
        all_within(l, s),
        all_within(acc, s),
    ensures
        list_scan_spec(l, p, i, count, acc) matches Ok(Some(r)) ==> within(r, s),
    decreases p.weight(), 2nat, l.len() - i,
{
    if i < l.len() {
        assert(within(l[i], s));
        match passes_spec(p.query, l[i]) {
            Ok(false) => {
                lemma_list_scan_within(l, p, i + 1, count, acc, s);
            },
            Ok(true) => {
                lemma_follow_within(l[i], p.next, s);
                match follow_spec(l[i], p.next) {
                    Ok(None) => {
                        lemma_list_scan_within(l, p, i + 1, count + 1, acc, s);
                    },
                    Ok(Some(w)) => {
                        if !first_only(p) {
                            lemma_list_scan_within(
                                l,
                                p,
                                i + 1,
                                count + 1,
                                if collects(p) {
                                    acc.push(w)
                                } else {
                                    acc
                                },
                                s,
                            );
                        }
                    },
                    Err(_) => {},
                }
            },
            Err(_) => {},
        }
    } else {
        assert(within(ElementView::List(acc), s));
        assert(within(ElementView::Count(count), s));
    }
}

proof fn lemma_object_bytes_get_within(t: Seq<u8>, p: PathView, s: Seq<u8>)
    requires
        is_span_of(t, s),
    ensures
        object_bytes_get_spec(t, p) matches Ok((found, rest)) ==> is_span_of(rest, s) && (
        found matches Some(e) ==> within(e, s)),
    decreases p.weight(), 1nat, 0nat,
{
    lemma_span_of_self(s, 0);
    if t.len() > 0 {
        let body = t.subrange(1, t.len() as int);
        lemma_span_of_self(t, 1);
        lemma_span_of_span(body, t, s);
        lemma_object_scan_within(body, p.part, None, s);
        match object_scan(body, p.part, None) {
            Ok((Some(v), _)) => {
                lemma_follow_within(v, p.next, s);
            },
            _ => {},
        }
    }
}

proof fn lemma_array_bytes_get_within(t: Seq<u8>, p: PathView, s: Seq<u8>)
    requires
        is_span_of(t, s),
    ensures
        array_bytes_get_spec(t, p) matches Ok((found, rest)) ==> is_span_of(rest, s) && (
        found matches Some(e) ==> within(e, s)),
    decreases p.weight(), 1nat, 0nat,
{
    lemma_span_of_self(s, 0);
    if valid_utf8(p.part) && t.len() > 0 {
        let body = t.subrange(1, t.len() as int);
        lemma_span_of_self(t, 1);
        lemma_span_of_span(body, t, s);
        match segment_index(p.part) {
            Some(k) => {
                lemma_array_nth_within(body, k, s);
                match array_nth(body, k) {
                    Ok((Some(v), _)) => {
                        lemma_follow_within(v, p.next, s);
                    },
                    _ => {},
                }
            },
            None => {
                lemma_array_scan_within(body, p, 0, Seq::empty(), s);
            },
        }
    }
}

proof fn lemma_array_scan_within(
    t: Seq<u8>,
    p: PathView,
    count: nat,
    acc: Seq<ElementView>,
    s: Seq<u8>,
)
    requires
        is_span_of(t, s),
        all_within(acc, s),
    ensures
        array_scan_spec(t, p, count, acc) matches Ok((found, rest)) ==> is_span_of(rest, s) && (
        found matches Some(e) ==> within(e, s)),
    decreases p.weight(), 0nat, t.len(),
{
    lemma_read_one_within(t);
    match read_one_spec(t) {
        Ok((None, rest)) => {
            lemma_span_of_span(rest, t, s);
            assert(within(ElementView::List(acc), s));
            assert(within(ElementView::Count(count), s));
        },
        Ok((Some(v), rest)) => {
            lemma_read_one_advances(t);
            lemma_span_of_span(rest, t, s);
            lemma_within_piece(v, t, s);
            match passes_spec(p.query, v) {
                Ok(false) => {
                    lemma_array_scan_within(rest, p, count, acc, s);
                },
                Ok(true) => {
                    lemma_follow_within(v, p.next, s);
                    match follow_spec(v, p.next) {
                        Ok(None) => {
                            lemma_array_scan_within(rest, p, count + 1, acc, s);
                        },
                        Ok(Some(w)) => {
                            if !first_only(p) {
                                lemma_array_scan_within(
                                    rest,
                                    p,
                                    count + 1,
                                    if collects(p) {
                                        acc.push(w)
                                    } else {
                                        acc
                                    },
                                    s,
                                );
                            }
                        },
                        Err(_) => {},
                    }
                },
                Err(_) => {},
            }
        },
        Err(_) => {},
    }
}

} // verus!
