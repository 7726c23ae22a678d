//! The traversal engine: it walks a buffer as a parsed path directs and
//! yields the value that the path designates.

use crate::bytes::{
    byte_is_opener, copied, is_opener, lemma_next_mark_bounds, lemma_string_end_bounds, next_mark,
    OPEN_BRACE, OPEN_BRACKET,
};
use crate::element::{
    element_views, lemma_element_views, lemma_member_views, lemma_read_one_advances,
    member_views, option_view, outcome_view, read_one, read_one_spec, Element, ElementView,
    Member, MemberView, Outcome,
};
use crate::error::Error;
use crate::laws::{law_bytes_get_well_formed, law_element_get_well_formed};
use crate::number::{index_value, parse_index};
use crate::path::{
    bytes_equal, selector_views, selectors_weight, unquoted, Path, PathView, QueryView,
    SubSelector, SubSelectorView,
};
use crate::spans::{is_span_of, law_spans_lie_within_the_buffer, within};
use crate::syntax::{lemma_parse_weight, parse_spec};
use crate::value::{
    array_values, entries_from, entries_of, entries_outcome, entries_well_formed, entry_views,
    lemma_array_values_well_formed, lemma_object_entries_well_formed,
    lemma_span_value_well_formed, object_entries, value_of, value_views, value_well_formed,
    values_from, values_of, values_outcome, values_well_formed, Entry, EntryView, Value,
    ValueView,
};
use crate::wild::{is_match, wild_matches};
use vstd::prelude::*;
use vstd::utf8::valid_utf8;

verus! {

/// Nothing found and nothing left.
pub open spec fn nothing() -> Outcome {
    Ok((None, Seq::empty()))
}

/// The first index at or after `i` that holds `{` or `[`, or the length of
/// the input.
pub open spec fn first_opener(s: Seq<u8>, i: int) -> int
    decreases s.len() - i,
{
    if i < 0 || i >= s.len() {
        s.len() as int
    } else if is_opener(s[i]) {
        i
    } else {
        first_opener(s, i + 1)
    }
}

/// The array index that a segment names: its value, if it is made of digits
/// only and fits the machine's word.
pub open spec fn segment_index(part: Seq<u8>) -> Option<nat> {
    match index_value(part) {
        Some(v) => if v <= usize::MAX {
            Some(v)
        } else {
            None
        },
        None => None,
    }
}

/// Whether an array segment collects what it finds into a list: with a
/// filter that asks for every match, or without a filter and with a
/// continuation.
pub open spec fn collects(p: PathView) -> bool {
    (p.query.on && p.query.all) || (!p.query.on && p.more())
}

/// Whether an array segment stops at the first element that passes.
pub open spec fn first_only(p: PathView) -> bool {
    p.query.on && !p.query.all
}

/// How a scan of members ends on what cannot be read: with the match found
/// so far and nothing left, if there is one, and with the error otherwise.
pub open spec fn stopped(found: Option<ElementView>, e: Error) -> Outcome {
    match found {
        Some(_) => Ok((found, Seq::empty())),
        None => Err(e),
    }
}

/// The value of the last member of an object whose key matches `part`,
/// reading the members from the front of `s` up to the bracket that closes
/// the object, with what remains after that bracket. `found` is the value of
/// the last matching member read before. A key is compared without its
/// quotes.
///
/// A member that cannot be read, or whose key is not a string, ends the
/// scan. Before any match this is a hard error; after a match it is not, and
/// the match stands.
pub open spec fn object_scan(s: Seq<u8>, part: Seq<u8>, found: Option<ElementView>) -> Outcome
    decreases s.len(),
{
    match read_one_spec(s) {
        Err(e) => stopped(found, e),
        Ok((None, rest)) => Ok((found, rest)),
        Ok((Some(ElementView::String(raw)), rest)) => match read_one_spec(rest) {
            Err(e) => stopped(found, e),
            Ok((None, after)) => Ok((found, after)),
            Ok((Some(v), after)) => {
                proof {
                    lemma_read_one_advances(s);
                    lemma_read_one_advances(rest);
                }
                object_scan(
                    after,
                    part,
                    if wild_matches(part, unquoted(raw)) {
                        Some(v)
                    } else {
                        found
                    },
                )
            },
        },
        Ok((Some(_), _)) => stopped(found, Error::ObjectKey),
    }
}

/// The element at index `k` of an array, reading its elements from the front
/// of `s`, with what remains after it; or nothing, with what remains after
/// the bracket that closes the array, when the array has no such element.
/// Elements after the one asked for are not read.
pub open spec fn array_nth(s: Seq<u8>, k: nat) -> Outcome
    decreases s.len(),
{
    match read_one_spec(s) {
        Err(e) => Err(e),
        Ok((None, rest)) => Ok((None, rest)),
        Ok((Some(v), rest)) => if k == 0 {
            Ok((Some(v), rest))
        } else {
            proof {
                lemma_read_one_advances(s);
            }
            array_nth(rest, (k - 1) as nat)
        },
    }
}

/// The index of the first member at or after `i` whose name is `name`.
pub open spec fn member_position(m: Seq<MemberView>, name: Seq<u8>, i: int) -> Option<int>
    decreases m.len() - i,
{
    if i < 0 || i >= m.len() {
        None
    } else if m[i].name == name {
        Some(i)
    } else {
        member_position(m, name, i + 1)
    }
}

/// A map after `name` was given the value `value`: the member of that name
/// has the new value, or a new member stands at the end.
pub open spec fn with_member(m: Seq<MemberView>, name: Seq<u8>, value: ElementView) -> Seq<
    MemberView,
> {
    match member_position(m, name, 0) {
        Some(i) => m.update(i, MemberView { name, value }),
        None => m.push(MemberView { name, value }),
    }
}

/// Whether an element is as the engine builds it: in every map, at any
/// depth, no two members have one name.
pub open spec fn well_formed(e: ElementView) -> bool
    decreases e,
{
    match e {
        ElementView::Mapping(m) => distinct_member_names(m) && forall|i: int|
            0 <= i < m.len() ==> well_formed((#[trigger] m[i]).value),
        ElementView::List(l) => forall|i: int| 0 <= i < l.len() ==> well_formed(#[trigger] l[i]),
        _ => true,
    }
}

/// Whether every element of a list is well formed.
pub open spec fn all_well_formed(l: Seq<ElementView>) -> bool {
    forall|i: int| 0 <= i < l.len() ==> well_formed(#[trigger] l[i])
}

/// Whether a map has no name twice and only well-formed values.
pub open spec fn members_well_formed(m: Seq<MemberView>) -> bool {
    distinct_member_names(m) && forall|i: int|
        0 <= i < m.len() ==> well_formed((#[trigger] m[i]).value)
}

/// Whether no two members have one name.
pub open spec fn distinct_member_names(m: Seq<MemberView>) -> bool {
    forall|i: int, j: int| 0 <= i < j < m.len() ==> (#[trigger] m[i]).name != (#[trigger] m[j]).name
}

/// Where the first member of a given name stands, if there is one.
pub proof fn lemma_member_position(m: Seq<MemberView>, name: Seq<u8>, i: int)
    requires
        0 <= i,
    ensures
        match member_position(m, name, i) {
            Some(k) => i <= k < m.len() && m[k].name == name,
            None => forall|j: int| i <= j < m.len() ==> (#[trigger] m[j]).name != name,
        },
    decreases m.len() - i,
{
    if i < m.len() && m[i].name != name {
        lemma_member_position(m, name, i + 1);
    }
}

/// Giving a name a value keeps the names of a map distinct.
pub proof fn lemma_with_member_distinct(m: Seq<MemberView>, name: Seq<u8>, value: ElementView)
    requires
        distinct_member_names(m),
    ensures
        distinct_member_names(with_member(m, name, value)),
{
    lemma_member_position(m, name, 0);
    let r = with_member(m, name, value);
    assert forall|i: int, j: int| 0 <= i < j < r.len() implies (#[trigger] r[i]).name != (
    #[trigger] r[j]).name by {
        match member_position(m, name, 0) {
            Some(k) => {
                assert(m[i].name != m[j].name);
            },
            None => {
                if j < m.len() {
                    assert(m[i].name != m[j].name);
                } else {
                    assert(m[i].name != name);
                }
            },
        }
    }
}

/// The value of the first member at or after `i` whose name matches `part`.
pub open spec fn first_match(m: Seq<MemberView>, part: Seq<u8>, i: int) -> Option<(int, ElementView)>
    decreases m.len() - i,
{
    if i < 0 || i >= m.len() {
        None
    } else if wild_matches(part, m[i].name) {
        Some((i, m[i].value))
    } else {
        first_match(m, part, i + 1)
    }
}

/// What an array segment yields once every element was read: the list of
/// what it collected; or nothing, where it looked for a first match; or the
/// number of elements, where it is the count marker; or nothing.
pub open spec fn array_result(p: PathView, count: nat, acc: Seq<ElementView>) -> Option<
    ElementView,
> {
    if collects(p) {
        Some(ElementView::List(acc))
    } else if first_only(p) {
        None
    } else if p.arrch {
        Some(ElementView::Count(count))
    } else {
        None
    }
}

/// Every slot of a group weighs no more than the group.
pub proof fn lemma_selectors_weight_index(s: Seq<SubSelectorView>, i: int)
    requires
        0 <= i < s.len(),
    ensures
        s[i].path.len() + 1 <= selectors_weight(s),
    decreases s.len(),
{
    if i < s.len() - 1 {
        lemma_selectors_weight_index(s.drop_last(), i);
    }
}

/// What the path `p` designates in the buffer `s`, with the bytes that
/// remain.
///
/// An invalid path or an empty buffer yields nothing. A group is evaluated
/// slot by slot on the whole buffer and yields a map or a list, to which the
/// continuation is then applied. Any other segment is applied to the first
/// object or array that the buffer holds, whatever stands before it.
pub open spec fn bytes_get_spec(s: Seq<u8>, p: PathView) -> Outcome
    decreases p.weight(), 2nat, 0nat,
{
    if !p.ok || s.len() == 0 {
        nothing()
    } else if let Some(sels) = p.selectors {
        let built = if p.arrsel {
            match select_to_array_spec(s, sels, 0, Seq::empty()) {
                Ok(l) => Ok(ElementView::List(l)),
                Err(e) => Err(e),
            }
        } else {
            match select_to_object_spec(s, sels, 0, Seq::empty()) {
                Ok(m) => Ok(ElementView::Mapping(m)),
                Err(e) => Err(e),
            }
        };
        match built {
            Ok(element) => match follow_spec(element, p.next) {
                Ok(r) => Ok((r, Seq::empty())),
                Err(e) => Err(e),
            },
            Err(e) => Err(e),
        }
    } else {
        let i = first_opener(s, 0);
        if i >= s.len() {
            nothing()
        } else if s[i] == OPEN_BRACE {
            object_bytes_get_spec(s.subrange(i, s.len() as int), p)
        } else {
            array_bytes_get_spec(s.subrange(i, s.len() as int), p)
        }
    }
}

/// The list that a group with square brackets yields, from slot `i` on:
/// `acc` followed by what each slot's path designates in `s`, in the order
/// of the slots, without the slots whose path designates nothing.
pub open spec fn select_to_array_spec(
    s: Seq<u8>,
    sels: Seq<SubSelectorView>,
    i: int,
    acc: Seq<ElementView>,
) -> Result<Seq<ElementView>, Error>
    decreases selectors_weight(sels), 4nat, sels.len() - i,
{
    if i < 0 || i >= sels.len() {
        Ok(acc)
    } else {
        proof {
            lemma_parse_weight(sels[i].path);
            lemma_selectors_weight_index(sels, i);
        }
        match bytes_get_spec(s, parse_spec(sels[i].path)) {
            Err(e) => Err(e),
            Ok((Some(v), _)) => select_to_array_spec(s, sels, i + 1, acc.push(v)),
            Ok((None, _)) => select_to_array_spec(s, sels, i + 1, acc),
        }
    }
}

/// The map that a group with braces yields, from slot `i` on: `acc` with,
/// under each slot's name, what the slot's path designates in `s`, without
/// the slots whose path designates nothing. Of two slots with one name the
/// later one gives the value.
pub open spec fn select_to_object_spec(
    s: Seq<u8>,
    sels: Seq<SubSelectorView>,
    i: int,
    acc: Seq<MemberView>,
) -> Result<Seq<MemberView>, Error>
    decreases selectors_weight(sels), 4nat, sels.len() - i,
{
    if i < 0 || i >= sels.len() {
        Ok(acc)
    } else {
        proof {
            lemma_parse_weight(sels[i].path);
            lemma_selectors_weight_index(sels, i);
        }
        match bytes_get_spec(s, parse_spec(sels[i].path)) {
            Err(e) => Err(e),
            Ok((Some(v), _)) => select_to_object_spec(
                s,
                sels,
                i + 1,
                with_member(acc, sels[i].name, v),
            ),
            Ok((None, _)) => select_to_object_spec(s, sels, i + 1, acc),
        }
    }
}

/// An element after the continuation `next` was applied to it, if there is
/// one.
pub open spec fn follow_spec(e: ElementView, next: Option<Box<PathView>>) -> Result<
    Option<ElementView>,
    Error,
>
    decreases
        match next {
            Some(n) => n.weight(),
            None => 0,
        },
        4nat,
        0nat,
{
    match next {
        Some(n) => element_get_spec(e, *n),
        None => Ok(Some(e)),
    }
}

/// What a lookup that serves a filter keeps of a result: a span of the
/// document, and nothing in place of a map, a list or a count.
pub open spec fn raw_only(r: Option<ElementView>) -> Option<ElementView> {
    match r {
        Some(ElementView::Mapping(_)) => None,
        Some(ElementView::List(_)) => None,
        Some(ElementView::Count(_)) => None,
        _ => r,
    }
}

/// What the path `p` designates in a span of the document, for a filter to
/// compare: in an array or an object what it designates in their text, if
/// that is a span of the document, and nothing otherwise.
pub open spec fn element_ref_get_spec(e: ElementView, p: PathView) -> Result<
    Option<ElementView>,
    Error,
>
    decreases p.weight(), 3nat, 0nat,
{
    if !p.ok {
        Ok(None)
    } else {
        match e {
            ElementView::Array(span) => match bytes_get_spec(span, p) {
                Ok((r, _)) => Ok(raw_only(r)),
                Err(e) => Err(e),
            },
            ElementView::Object(span) => match bytes_get_spec(span, p) {
                Ok((r, _)) => Ok(raw_only(r)),
                Err(e) => Err(e),
            },
            _ => Ok(None),
        }
    }
}

/// What the path `p` designates in an element.
///
/// In an array or an object it is what `p` designates in their text. In a
/// map it is the value of the first member whose name matches the segment,
/// after the continuation. In a list a segment that is an index designates
/// the element at that index, after the continuation, and any other segment
/// goes through the elements as `list_scan_spec` says. In a scalar or a
/// count it is nothing, and so it is for an invalid path.
pub open spec fn element_get_spec(e: ElementView, p: PathView) -> Result<
    Option<ElementView>,
    Error,
>
    decreases p.weight(), 3nat, 0nat,
{
    if !p.ok {
        Ok(None)
    } else {
        match e {
            ElementView::Array(span) => match bytes_get_spec(span, p) {
                Ok((r, _)) => Ok(r),
                Err(e) => Err(e),
            },
            ElementView::Object(span) => match bytes_get_spec(span, p) {
                Ok((r, _)) => Ok(r),
                Err(e) => Err(e),
            },
            ElementView::Mapping(m) => match first_match(m, p.part, 0) {
                Some((_, v)) => follow_spec(v, p.next),
                None => Ok(None),
            },
            ElementView::List(l) => match segment_index(p.part) {
                Some(k) => if k < l.len() {
                    follow_spec(l[k as int], p.next)
                } else {
                    Ok(None)
                },
                None => list_scan_spec(l, p, 0, 0, Seq::empty()),
            },
            _ => Ok(None),
        }
    }
}

/// Going through the elements of a list from index `i` on, under a segment
/// that is no index, as `array_scan_spec` goes through the elements of an
/// array: each element that passes the filter is counted and the
/// continuation is applied to it; what this yields ends the scan where the
/// segment looks for a first match, and is added to `acc` where the segment
/// collects. At the end the result is as `array_result` says.
pub open spec fn list_scan_spec(
    l: Seq<ElementView>,
    p: PathView,
    i: int,
    count: nat,
    acc: Seq<ElementView>,
) -> Result<Option<ElementView>, Error>
    decreases p.weight(), 2nat, l.len() - i,
{
    if i < 0 || i >= l.len() {
        Ok(array_result(p, count, acc))
    } else {
        match passes_spec(p.query, l[i]) {
            Err(e) => Err(e),
            Ok(false) => list_scan_spec(l, p, i + 1, count, acc),
            Ok(true) => match follow_spec(l[i], p.next) {
                Err(e) => Err(e),
                Ok(None) => list_scan_spec(l, p, i + 1, count + 1, acc),
                Ok(Some(w)) => if first_only(p) {
                    Ok(Some(w))
                } else {
                    list_scan_spec(
                        l,
                        p,
                        i + 1,
                        count + 1,
                        if collects(p) {
                            acc.push(w)
                        } else {
                            acc
                        },
                    )
                },
            },
        }
    }
}

/// What the path `p` designates in the object whose text is `s`: the value
/// of the last member whose key matches the segment, after the
/// continuation, with what remains after the object.
pub open spec fn object_bytes_get_spec(s: Seq<u8>, p: PathView) -> Outcome
    decreases p.weight(), 1nat, 0nat,
{
    if s.len() == 0 {
        nothing()
    } else {
        match object_scan(s.subrange(1, s.len() as int), p.part, None) {
            Err(e) => Err(e),
            Ok((Some(v), rest)) => match follow_spec(v, p.next) {
                Ok(r) => Ok((r, rest)),
                Err(e) => Err(e),
            },
            Ok((None, rest)) => Ok((None, rest)),
        }
    }
}

/// What the path `p` designates in the array whose text is `s`.
///
/// A segment that is not valid UTF-8 is a hard error. A segment that is an
/// index designates the element at that index, after the continuation; the
/// elements after it are not read. Any other segment reads every element,
/// as `array_scan_spec` says.
pub open spec fn array_bytes_get_spec(s: Seq<u8>, p: PathView) -> Outcome
    decreases p.weight(), 1nat, 0nat,
{
    if !valid_utf8(p.part) {
        Err(Error::Path)
    } else if s.len() == 0 {
        nothing()
    } else {
        let body = s.subrange(1, s.len() as int);
        match segment_index(p.part) {
            Some(k) => match array_nth(body, k) {
                Err(e) => Err(e),
                Ok((Some(v), rest)) => match follow_spec(v, p.next) {
                    Ok(r) => Ok((r, rest)),
                    Err(e) => Err(e),
                },
                Ok((None, rest)) => Ok((None, rest)),
            },
            None => array_scan_spec(body, p, 0, Seq::empty()),
        }
    }
}

/// Whether an element passes the filter of a segment: without a filter it
/// does; with one, the element itself is compared, or what the filter's path
/// designates in it, and an element in which that path designates nothing
/// does not pass.
pub open spec fn passes_spec(q: QueryView, e: ElementView) -> Result<bool, Error>
    decreases q.weight(), 4nat, 0nat,
{
    if !q.on {
        Ok(true)
    } else if q.path.len() > 0 {
        proof {
            lemma_parse_weight(q.path);
        }
        match element_ref_get_spec(e, parse_spec(q.path)) {
            Err(e) => Err(e),
            Ok(Some(x)) => Ok(q.accepts(x)),
            Ok(None) => Ok(false),
        }
    } else {
        Ok(q.accepts(e))
    }
}

/// Reading the elements of an array from the front of `s` under a segment
/// that is no index. `count` elements have passed the filter so far and
/// `acc` holds what was collected.
///
/// Each element that passes the filter is counted and the continuation is
/// applied to it. Where this yields nothing the element is dropped. Where
/// the segment looks for a first match, what it yields ends the scan, and
/// what remains starts after that element. Where the segment collects, it is
/// added to the list. At the end of the array the result is as
/// `array_result` says, and what remains starts after the closing bracket.
pub open spec fn array_scan_spec(s: Seq<u8>, p: PathView, count: nat, acc: Seq<ElementView>) -> Outcome
    decreases p.weight(), 0nat, s.len(),
{
    match read_one_spec(s) {
        Err(e) => Err(e),
        Ok((None, rest)) => Ok((array_result(p, count, acc), rest)),
        Ok((Some(v), rest)) => {
            proof {
                lemma_read_one_advances(s);
            }
            match passes_spec(p.query, v) {
                Err(e) => Err(e),
                Ok(false) => array_scan_spec(rest, p, count, acc),
                Ok(true) => match follow_spec(v, p.next) {
                    Err(e) => Err(e),
                    Ok(None) => array_scan_spec(rest, p, count + 1, acc),
                    Ok(Some(w)) => if first_only(p) {
                        Ok((Some(w), rest))
                    } else {
                        array_scan_spec(
                            rest,
                            p,
                            count + 1,
                            if collects(p) {
                                acc.push(w)
                            } else {
                                acc
                            },
                        )
                    },
                },
            }
        },
    }
}

/// The map that a group with braces yields has no name twice.
pub proof fn lemma_select_to_object_distinct(
    s: Seq<u8>,
    sels: Seq<SubSelectorView>,
    i: int,
    acc: Seq<MemberView>,
)
    requires
        0 <= i,
        distinct_member_names(acc),
    ensures
        select_to_object_spec(s, sels, i, acc) matches Ok(m) ==> distinct_member_names(m),
    decreases sels.len() - i,
{
    if i < sels.len() {
        match bytes_get_spec(s, parse_spec(sels[i].path)) {
            Ok((Some(v), _)) => {
                lemma_with_member_distinct(acc, sels[i].name, v);
                lemma_select_to_object_distinct(
                    s,
                    sels,
                    i + 1,
                    with_member(acc, sels[i].name, v),
                );
            },
            Ok((None, _)) => {
                lemma_select_to_object_distinct(s, sels, i + 1, acc);
            },
            Err(_) => {},
        }
    }
}

/// The view of what a step that leaves no bytes returned.
pub open spec fn found_view(r: Result<Option<Element>, Error>) -> Result<
    Option<ElementView>,
    Error,
> {
    match r {
        Ok(e) => Ok(option_view(e)),
        Err(e) => Err(e),
    }
}

/// The view of a continuation.
pub open spec fn next_view(next: Option<Box<Path>>) -> Option<Box<PathView>> {
    match next {
        Some(n) => Some(Box::new((*n)@)),
        None => None,
    }
}

/// A string that the tokenizer read stands between quotes.
pub proof fn lemma_read_one_string(s: Seq<u8>)
    ensures
        read_one_spec(s) matches Ok((Some(ElementView::String(raw)), _)) ==> raw.len() >= 2,
{
    let i = next_mark(s, 0);
    lemma_next_mark_bounds(s, 0);
    if i < s.len() {
        lemma_string_end_bounds(s, i + 1);
    }
}

/// Tells whether a text is valid UTF-8, by `std::str::from_utf8`, which
/// returns `Ok` for exactly the byte sequences that are valid UTF-8. The
/// contract takes that on trust.
#[verifier::external_body]
fn is_utf8(bytes: &[u8]) -> (r: bool)
    ensures
        r == valid_utf8(bytes@),
{
    match std::str::from_utf8(bytes) {
        Ok(_) => true,
        Err(_) => false,
    }
}

/// Finds the first `{` or `[`.
fn find_opener(bytes: &[u8]) -> (r: usize)
    ensures
        r == first_opener(bytes@, 0),
        r <= bytes.len(),
{
    let n = bytes.len();
    let mut i: usize = 0;
    while i < n && !byte_is_opener(bytes[i])
        invariant
            0 <= i <= n,
            n == bytes.len(),
            first_opener(bytes@, 0) == first_opener(bytes@, i as int),
        decreases n - i,
    {
        i += 1;
    }
    i
}

/// Turns a vector end for end.
fn reversed<T>(v: Vec<T>) -> (r: Vec<T>)
    ensures
        r@ == v@.reverse(),
{
    let mut v = v;
    let ghost initial = v@;
    let mut out: Vec<T> = Vec::new();
    while v.len() > 0
        invariant
            v@.len() <= initial.len(),
            out@.len() == initial.len() - v@.len(),
            v@ == initial.take(v@.len() as int),
            forall|j: int| 0 <= j < out@.len() ==> out@[j] == initial[initial.len() - 1 - j],
        decreases v.len(),
    {
        match v.pop() {
            Some(x) => {
                out.push(x);
            },
            None => {},
        }
        assert(v@ =~= initial.take(v@.len() as int));
    }
    assert(out@ =~= initial.reverse());
    out
}

/// Gives `name` the value `value` in a map.
fn insert_member<'a>(m: &mut Vec<Member<'a>>, name: &[u8], value: Element<'a>)
    ensures
        member_views(final(m)@) == with_member(member_views(old(m)@), name@, value@),
{
    let ghost before = m@;
    let ghost views = member_views(before);
    proof {
        lemma_member_views(before);
    }
    let n = m.len();
    let mut i: usize = 0;
    while i < n
        invariant
            0 <= i <= n,
            n == m.len(),
            m@ == before,
            before == old(m)@,
            views == member_views(before),
            views.len() == before.len(),
            forall|j: int| 0 <= j < before.len() ==> (#[trigger] views[j]) == before[j]@,
            member_position(views, name@, 0) == member_position(views, name@, i as int),
        decreases n - i,
    {
        if bytes_equal(m[i].name.as_slice(), name) {
            let slot = Member { name: copied(name), value };
            let ghost added = slot@;
            m.push(slot);
            m.swap_remove(i);
            proof {
                lemma_member_views(m@);
                assert(member_views(m@) =~= views.update(i as int, added));
            }
            return ;
        }
        i += 1;
    }
    let slot = Member { name: copied(name), value };
    let ghost pushed = slot@;
    m.push(slot);
    proof {
        lemma_member_views(m@);
        assert(member_views(m@) =~= views.push(pushed));
    }
}

/// Looks up in a buffer what a path designates. The result is the element
/// found, if any, and the bytes that remain after it.
pub fn bytes_get<'a>(bytes: &'a [u8], path: &Path<'a>) -> (r: Result<
    (Option<Element<'a>>, &'a [u8]),
    Error,
>)
    ensures
        outcome_view(r) == bytes_get_spec(bytes@, path@),
        r matches Ok((Some(e), _)) ==> well_formed(e@) && within(e@, bytes@),
        r matches Ok((_, rest)) ==> is_span_of(rest@, bytes@),
    decreases path@.weight(), 2nat, 0nat,
{
    proof {
        law_bytes_get_well_formed(bytes@, path@);
        law_spans_lie_within_the_buffer(bytes@, path@);
    }
    let n = bytes.len();
    let empty = &bytes[0..0];
    assert(empty@ =~= Seq::<u8>::empty());
    if !path.ok || n == 0 {
        return Ok((None, empty));
    }
    match &path.selectors {
        Some(sels) => {
            let built = if path.arrsel {
                select_to_array(bytes, sels.as_slice())
            } else {
                select_to_object(bytes, sels.as_slice())
            };
            match built {
                Err(e) => Err(e),
                Ok(Some(element)) => match follow(element, &path.next) {
                    Ok(r) => Ok((r, empty)),
                    Err(e) => Err(e),
                },
                Ok(None) => Ok((None, empty)),
            }
        },
        None => {
            let i = find_opener(bytes);
            if i >= n {
                Ok((None, empty))
            } else if bytes[i] == OPEN_BRACE {
                object_bytes_get(&bytes[i..n], path)
            } else {
                array_bytes_get(&bytes[i..n], path)
            }
        },
    }
}

/// Evaluates the slots of a group with braces on a buffer.
pub fn select_to_object<'a>(input: &'a [u8], sels: &[SubSelector<'a>]) -> (r: Result<
    Option<Element<'a>>,
    Error,
>)
    ensures
        match select_to_object_spec(
            input@,
            selector_views(sels@),
            0,
            Seq::empty(),
        ) {
            Ok(m) => r matches Ok(Some(e)) && e@ == ElementView::Mapping(m)
                && distinct_member_names(m),
            Err(e) => r == Err::<Option<Element<'a>>, Error>(e),
        },
    decreases selectors_weight(selector_views(sels@)), 4nat, 0nat,
{
    let ghost views = selector_views(sels@);
    proof {
        lemma_select_to_object_distinct(input@, views, 0, Seq::empty());
    }
    let mut map: Vec<Member<'a>> = Vec::new();
    let n = sels.len();
    let mut i: usize = 0;
    proof {
        assert(member_views(map@) =~= Seq::<MemberView>::empty());
    }
    while i < n
        invariant
            0 <= i <= n,
            n == sels.len(),
            views == selector_views(sels@),
            select_to_object_spec(input@, views, 0, Seq::empty()) == select_to_object_spec(
                input@,
                views,
                i as int,
                member_views(map@),
            ),
        decreases n - i,
    {
        let sel = &sels[i];
        let sub = Path::parse(sel.path);
        proof {
            lemma_parse_weight(sel.path@);
            lemma_selectors_weight_index(views, i as int);
        }
        match bytes_get(input, &sub) {
            Err(e) => {
                return Err(e);
            },
            Ok((Some(v), _)) => {
                insert_member(&mut map, sel.name.as_slice(), v);
            },
            Ok((None, _)) => {},
        }
        i += 1;
    }
    Ok(Some(Element::Mapping(map)))
}

/// Evaluates the slots of a group with square brackets on a buffer.
pub fn select_to_array<'a>(input: &'a [u8], sels: &[SubSelector<'a>]) -> (r: Result<
    Option<Element<'a>>,
    Error,
>)
    ensures
        match select_to_array_spec(input@, selector_views(sels@), 0, Seq::empty()) {
            Ok(l) => r matches Ok(Some(e)) && e@ == ElementView::List(l),
            Err(e) => r == Err::<Option<Element<'a>>, Error>(e),
        },
    decreases selectors_weight(selector_views(sels@)), 4nat, 0nat,
{
    let ghost views = selector_views(sels@);
    let mut list: Vec<Element<'a>> = Vec::new();
    let n = sels.len();
    let mut i: usize = 0;
    proof {
        assert(element_views(list@) =~= Seq::<ElementView>::empty());
    }
    while i < n
        invariant
            0 <= i <= n,
            n == sels.len(),
            views == selector_views(sels@),
            select_to_array_spec(input@, views, 0, Seq::empty()) == select_to_array_spec(
                input@,
                views,
                i as int,
                element_views(list@),
            ),
        decreases n - i,
    {
        let sel = &sels[i];
        let sub = Path::parse(sel.path);
        proof {
            lemma_parse_weight(sel.path@);
            lemma_selectors_weight_index(views, i as int);
        }
        match bytes_get(input, &sub) {
            Err(e) => {
                return Err(e);
            },
            Ok((Some(v), _)) => {
                let ghost before = list@;
                list.push(v);
                proof {
                    lemma_element_views(before);
                    lemma_element_views(list@);
                    assert(element_views(list@) =~= element_views(before).push(v@));
                }
            },
            Ok((None, _)) => {},
        }
        i += 1;
    }
    Ok(Some(Element::List(list)))
}

/// Applies a continuation, if there is one, to an element.
pub fn follow<'a>(element: Element<'a>, next: &Option<Box<Path<'a>>>) -> (r: Result<
    Option<Element<'a>>,
    Error,
>)
    ensures
        found_view(r) == follow_spec(element@, next_view(*next)),
    decreases
        match next_view(*next) {
            Some(n) => n.weight(),
            None => 0,
        },
        4nat,
        0nat,
{
    match next {
        Some(n) => element_get(element, n),
        None => Ok(Some(element)),
    }
}

/// Looks up what a path designates in a span of the document, which is left
/// as it is.
pub fn element_ref_get<'a>(element: &Element<'a>, path: &Path<'a>) -> (r: Result<
    Option<Element<'a>>,
    Error,
>)
    ensures
        found_view(r) == element_ref_get_spec(element@, path@),
        r matches Ok(Some(e)) ==> !(e is Mapping) && !(e is List) && !(e is Count),
    decreases path@.weight(), 3nat, 0nat,
{
    if !path.ok {
        return Ok(None);
    }
    match element {
        Element::Array(s) => match bytes_get(s, path) {
            Ok((a, _)) => Ok(only_raw(a)),
            Err(e) => Err(e),
        },
        Element::Object(s) => match bytes_get(s, path) {
            Ok((a, _)) => Ok(only_raw(a)),
            Err(e) => Err(e),
        },
        _ => Ok(None),
    }
}

/// Leaves out a result that is no span of the document.
fn only_raw<'a>(found: Option<Element<'a>>) -> (r: Option<Element<'a>>)
    ensures
        option_view(r) == raw_only(option_view(found)),
{
    match found {
        Some(Element::Mapping(_)) => None,
        Some(Element::List(_)) => None,
        Some(Element::Count(_)) => None,
        other => other,
    }
}

/// Looks up what a path designates in an element.
pub fn element_get<'a>(element: Element<'a>, path: &Path<'a>) -> (r: Result<
    Option<Element<'a>>,
    Error,
>)
    ensures
        found_view(r) == element_get_spec(element@, path@),
        well_formed(element@) ==> (r matches Ok(Some(e)) ==> well_formed(e@)),
    decreases path@.weight(), 3nat, 0nat,
{
    proof {
        if well_formed(element@) {
            law_element_get_well_formed(element@, path@);
        }
    }
    if !path.ok {
        return Ok(None);
    }
    match element {
        Element::Array(s) => match bytes_get(s, path) {
            Ok((a, _)) => Ok(a),
            Err(e) => Err(e),
        },
        Element::Object(s) => match bytes_get(s, path) {
            Ok((a, _)) => Ok(a),
            Err(e) => Err(e),
        },
        Element::Mapping(m) => {
            let mut m = m;
            let ghost views = member_views(m@);
            proof {
                lemma_member_views(m@);
            }
            let n = m.len();
            let mut i: usize = 0;
            while i < n
                invariant
                    0 <= i <= n,
                    n == m.len(),
                    path.ok,
                    well_formed(element@) ==> (element_get_spec(element@, path@) matches Ok(
                        Some(e),
                    ) ==> well_formed(e)),
                    element@ == ElementView::Mapping(views),
                    views == member_views(m@),
                    views.len() == n,
                    forall|j: int| 0 <= j < n ==> (#[trigger] views[j]) == m@[j]@,
                    first_match(views, path@.part, 0) == first_match(views, path@.part, i as int),
                decreases n - i,
            {
                if path.is_match(m[i].name.as_slice()) {
                    let member = m.swap_remove(i);
                    return follow(member.value, &path.next);
                }
                i += 1;
            }
            Ok(None)
        },
        Element::List(l) => {
            let mut l = l;
            let ghost views = element_views(l@);
            proof {
                lemma_element_views(l@);
            }
            match parse_index(path.part) {
                Some(k) => {
                    if k < l.len() {
                        let member = l.swap_remove(k);
                        follow(member, &path.next)
                    } else {
                        Ok(None)
                    }
                },
                None => list_scan(l, path),
            }
        },
        _ => Ok(None),
    }
}

/// Goes through the elements of a list under a segment that is no index.
fn list_scan<'a>(elements: Vec<Element<'a>>, path: &Path<'a>) -> (r: Result<
    Option<Element<'a>>,
    Error,
>)
    ensures
        found_view(r) == list_scan_spec(element_views(elements@), path@, 0, 0, Seq::empty()),
    decreases path@.weight(), 2nat, 0nat,
{
    let ghost initial = elements@;
    let ghost views = element_views(initial);
    let n = elements.len();
    let on = path.query.on;
    let all = path.query.all;
    let return_list = (on && all) || (!on && path.more());
    let only_first = on && !all;
    let key: Option<Path<'a>> = if on && path.query.has_path() {
        Some(Path::parse(path.query.path))
    } else {
        None
    };
    let mut rest = reversed(elements);
    let mut count: usize = 0;
    let mut out: Vec<Element<'a>> = Vec::new();
    proof {
        lemma_element_views(initial);
        assert(element_views(out@) =~= Seq::<ElementView>::empty());
    }
    while rest.len() > 0
        invariant
            rest@.len() <= n,
            n == initial.len(),
            initial == elements@,
            views == element_views(initial),
            views.len() == n,
            return_list == collects(path@),
            only_first == first_only(path@),
            path@.query.on && path@.query.path.len() > 0 ==> (key matches Some(k) && k@
                == parse_spec(path@.query.path)),
            count <= n - rest@.len(),
            forall|j: int| 0 <= j < n ==> (#[trigger] views[j]) == initial[j]@,
            forall|j: int| 0 <= j < rest@.len() ==> rest@[j] == initial[n - 1 - j],
            list_scan_spec(views, path@, 0, 0, Seq::empty()) == list_scan_spec(
                views,
                path@,
                n - rest@.len(),
                count as nat,
                element_views(out@),
            ),
        decreases rest.len(),
    {
        let ghost i = n - rest@.len();
        let item = rest.pop();
        match item {
            Some(e) => {
                assert(e == initial[i]);
                match passes(path, &key, &e) {
                    Err(err) => {
                        return Err(err);
                    },
                    Ok(false) => {},
                    Ok(true) => {
                        count += 1;
                        match follow(e, &path.next) {
                            Err(err) => {
                                return Err(err);
                            },
                            Ok(None) => {},
                            Ok(Some(w)) => {
                                if only_first {
                                    return Ok(Some(w));
                                }
                                if return_list {
                                    let ghost before = out@;
                                    out.push(w);
                                    proof {
                                        lemma_element_views(before);
                                        lemma_element_views(out@);
                                        assert(element_views(out@) =~= element_views(before).push(
                                            w@,
                                        ));
                                    }
                                }
                            },
                        }
                    },
                }
            },
            None => {},
        }
    }
    let result = if return_list {
        Some(Element::List(out))
    } else if only_first {
        None
    } else if path.arrch {
        Some(Element::Count(count))
    } else {
        None
    };
    Ok(result)
}

/// Reads the members of an object from the front of `bytes` and keeps the
/// value of the last one whose key matches `part`.
fn scan_object<'a>(input: &'a [u8], part: &[u8]) -> (r: Result<
    (Option<Element<'a>>, &'a [u8]),
    Error,
>)
    ensures
        outcome_view(r) == object_scan(input@, part@, None),
{
    let ghost start = input@;
    let empty = &input[0..0];
    assert(empty@ =~= Seq::<u8>::empty());
    let mut bytes = input;
    let mut found: Option<Element<'a>> = None;
    loop
        invariant
            start == input@,
            empty@ == Seq::<u8>::empty(),
            object_scan(start, part@, None) == object_scan(bytes@, part@, option_view(found)),
        decreases bytes.len(),
    {
        proof {
            lemma_read_one_advances(bytes@);
            lemma_read_one_string(bytes@);
        }
        let (key, rest) = match read_one(bytes) {
            Err(e) => {
                return if found.is_some() {
                    Ok((found, empty))
                } else {
                    Err(e)
                };
            },
            Ok(x) => x,
        };
        let raw = match key {
            None => {
                return Ok((found, rest));
            },
            Some(Element::String(raw)) => raw,
            Some(_) => {
                return if found.is_some() {
                    Ok((found, empty))
                } else {
                    Err(Error::ObjectKey)
                };
            },
        };
        proof {
            lemma_read_one_advances(rest@);
        }
        let (value, after) = match read_one(rest) {
            Err(e) => {
                return if found.is_some() {
                    Ok((found, empty))
                } else {
                    Err(e)
                };
            },
            Ok(x) => x,
        };
        let v = match value {
            None => {
                return Ok((found, after));
            },
            Some(v) => v,
        };
        if is_match(part, &raw[1..raw.len() - 1]) {
            found = Some(v);
        }
        bytes = after;
    }
}

/// Looks up in the text of an object what a path designates.
pub fn object_bytes_get<'a>(input: &'a [u8], path: &Path<'a>) -> (r: Result<
    (Option<Element<'a>>, &'a [u8]),
    Error,
>)
    ensures
        outcome_view(r) == object_bytes_get_spec(input@, path@),
    decreases path@.weight(), 1nat, 0nat,
{
    let n = input.len();
    if n == 0 {
        assert(input@.subrange(0, 0) =~= Seq::<u8>::empty());
        return Ok((None, &input[0..0]));
    }
    match scan_object(&input[1..n], path.part) {
        Err(e) => Err(e),
        Ok((Some(v), rest)) => match follow(v, &path.next) {
            Ok(r) => Ok((r, rest)),
            Err(e) => Err(e),
        },
        Ok((None, rest)) => Ok((None, rest)),
    }
}

/// Reads the elements of an array up to the one at index `k`.
fn nth_element<'a>(input: &'a [u8], k: usize) -> (r: Result<
    (Option<Element<'a>>, &'a [u8]),
    Error,
>)
    ensures
        outcome_view(r) == array_nth(input@, k as nat),
{
    let ghost start = input@;
    let mut bytes = input;
    let mut left: usize = k;
    loop
        invariant
            start == input@,
            array_nth(start, k as nat) == array_nth(bytes@, left as nat),
        decreases bytes.len(),
    {
        proof {
            lemma_read_one_advances(bytes@);
        }
        let (element, rest) = match read_one(bytes) {
            Err(e) => {
                return Err(e);
            },
            Ok(x) => x,
        };
        let v = match element {
            None => {
                return Ok((None, rest));
            },
            Some(v) => v,
        };
        if left == 0 {
            return Ok((Some(v), rest));
        }
        left -= 1;
        bytes = rest;
    }
}

/// Looks up in the text of an array what a path designates.
pub fn array_bytes_get<'a>(bytes: &'a [u8], path: &Path<'a>) -> (r: Result<
    (Option<Element<'a>>, &'a [u8]),
    Error,
>)
    ensures
        outcome_view(r) == array_bytes_get_spec(bytes@, path@),
    decreases path@.weight(), 1nat, 0nat,
{
    let n = bytes.len();
    if !is_utf8(path.part) {
        return Err(Error::Path);
    }
    if n == 0 {
        assert(bytes@.subrange(0, 0) =~= Seq::<u8>::empty());
        return Ok((None, &bytes[0..0]));
    }
    let body = &bytes[1..n];
    match parse_index(path.part) {
        Some(k) => match nth_element(body, k) {
            Err(e) => Err(e),
            Ok((Some(v), rest)) => match follow(v, &path.next) {
                Ok(r) => Ok((r, rest)),
                Err(e) => Err(e),
            },
            Ok((None, rest)) => Ok((None, rest)),
        },
        None => array_scan(body, path),
    }
}

/// Tells whether an element passes a filter whose path, if it has one, was
/// parsed as `key`.
fn passes<'a>(path: &Path<'a>, key: &Option<Path<'a>>, element: &Element<'a>) -> (r: Result<
    bool,
    Error,
>)
    requires
        path@.query.on && path@.query.path.len() > 0 ==> (key matches Some(k) && k@ == parse_spec(
            path@.query.path,
        )),
    ensures
        r == passes_spec(path@.query, element@),
    decreases path@.weight(), 0nat, 0nat,
{
    if !path.query.on {
        return Ok(true);
    }
    if path.query.has_path() {
        match key {
            Some(k) => {
                proof {
                    lemma_parse_weight(path@.query.path);
                }
                match element_ref_get(element, k) {
                    Err(e) => Err(e),
                    Ok(Some(x)) => Ok(path.query.match_element(&x)),
                    Ok(None) => Ok(false),
                }
            },
            None => Ok(false),
        }
    } else {
        Ok(path.query.match_element(element))
    }
}

/// Reads every element of an array under a segment that is no index.
fn array_scan<'a>(body: &'a [u8], path: &Path<'a>) -> (r: Result<
    (Option<Element<'a>>, &'a [u8]),
    Error,
>)
    ensures
        outcome_view(r) == array_scan_spec(body@, path@, 0, Seq::empty()),
    decreases path@.weight(), 0nat, 1nat,
{
    let ghost start = body@;
    let on = path.query.on;
    let all = path.query.all;
    let return_list = (on && all) || (!on && path.more());
    let only_first = on && !all;
    let key: Option<Path<'a>> = if on && path.query.has_path() {
        Some(Path::parse(path.query.path))
    } else {
        None
    };
    let mut bytes = body;
    let mut count: usize = 0;
    assert(start.len() == body.len());
    let mut elements: Vec<Element<'a>> = Vec::new();
    proof {
        assert(element_views(elements@) =~= Seq::<ElementView>::empty());
    }
    loop
        invariant
            return_list == collects(path@),
            only_first == first_only(path@),
            path@.query.on && path@.query.path.len() > 0 ==> (key matches Some(k) && k@
                == parse_spec(path@.query.path)),
            start == body@,
            start.len() <= usize::MAX,
            count + bytes@.len() <= start.len(),
            array_scan_spec(start, path@, 0, Seq::empty()) == array_scan_spec(
                bytes@,
                path@,
                count as nat,
                element_views(elements@),
            ),
        decreases bytes.len(),
    {
        proof {
            lemma_read_one_advances(bytes@);
        }
        let (element, rest) = match read_one(bytes) {
            Err(e) => {
                return Err(e);
            },
            Ok(x) => x,
        };
        let v = match element {
            None => {
                let result = if return_list {
                    Some(Element::List(elements))
                } else if only_first {
                    None
                } else if path.arrch {
                    Some(Element::Count(count))
                } else {
                    None
                };
                return Ok((result, rest));
            },
            Some(v) => v,
        };
        bytes = rest;
        match passes(path, &key, &v) {
            Err(e) => {
                return Err(e);
            },
            Ok(false) => {},
            Ok(true) => {
                count += 1;
                match follow(v, &path.next) {
                    Err(e) => {
                        return Err(e);
                    },
                    Ok(None) => {},
                    Ok(Some(w)) => {
                        if only_first {
                            return Ok((Some(w), rest));
                        }
                        if return_list {
                            let ghost before = elements@;
                            elements.push(w);
                            proof {
                                lemma_element_views(before);
                                lemma_element_views(elements@);
                                assert(element_views(elements@) =~= element_views(before).push(
                                    w@,
                                ));
                            }
                        }
                    },
                }
            },
        }
    }
}

/// The first index at or after `i` that holds the byte `b`, or the length of
/// the input.
pub open spec fn first_byte(s: Seq<u8>, b: u8, i: int) -> int
    decreases s.len() - i,
{
    if i < 0 || i >= s.len() {
        s.len() as int
    } else if s[i] == b {
        i
    } else {
        first_byte(s, b, i + 1)
    }
}

/// The elements of the first array that a document holds, as values. A
/// document without `[`, or with nothing after it, has none.
pub open spec fn bytes_to_vec_spec(s: Seq<u8>) -> Result<Seq<ValueView>, Error> {
    let i = first_byte(s, OPEN_BRACKET, 0);
    if i + 1 >= s.len() {
        Ok(Seq::empty())
    } else {
        array_values(s.subrange(i + 1, s.len() as int), Seq::empty())
    }
}

/// The members of the first object that a document holds, as entries. An
/// empty document has none, and neither has one that ends with its first
/// `{`. Any other document without `{` is a hard error.
pub open spec fn bytes_to_map_spec(s: Seq<u8>) -> Result<Seq<EntryView>, Error> {
    let i = first_byte(s, OPEN_BRACE, 0);
    if s.len() == 0 {
        Ok(Seq::empty())
    } else if i >= s.len() {
        Err(Error::Object)
    } else if i == s.len() - 1 {
        Ok(Seq::empty())
    } else {
        object_entries(s.subrange(i + 1, s.len() as int), Seq::empty())
    }
}

/// What a path expression designates in a document, as a value. What the
/// path designates is read to its leaves, and what cannot be read there is
/// a hard error.
pub open spec fn get_spec(document: Seq<u8>, expression: Seq<u8>) -> Result<
    Option<ValueView>,
    Error,
> {
    match bytes_get_spec(document, parse_spec(expression)) {
        Ok((Some(e), _)) => match value_of(e) {
            Ok(v) => Ok(Some(v)),
            Err(e) => Err(e),
        },
        Ok((None, _)) => Ok(None),
        Err(e) => Err(e),
    }
}

/// The view of an optional value, or of the error in its place.
pub open spec fn value_result_view(r: Result<Option<Value>, Error>) -> Result<
    Option<ValueView>,
    Error,
> {
    match r {
        Ok(Some(v)) => Ok(Some(v@)),
        Ok(None) => Ok(None),
        Err(e) => Err(e),
    }
}

/// The entries of a map stand under the names of its members, one for one.
proof fn lemma_entries_of_names(m: Seq<MemberView>, i: int, acc: Seq<EntryView>)
    requires
        0 <= i <= m.len(),
        acc.len() == i,
        forall|j: int| 0 <= j < i ==> (#[trigger] acc[j]).name == m[j].name,
        forall|j: int| 0 <= j < i ==> value_well_formed((#[trigger] acc[j]).value),
        members_well_formed(m),
    ensures
        entries_of(m, i, acc) matches Ok(r) ==> r.len() == m.len() && (forall|j: int|
            0 <= j < m.len() ==> (#[trigger] r[j]).name == m[j].name) && (forall|j: int|
            0 <= j < m.len() ==> value_well_formed((#[trigger] r[j]).value)),
    decreases m, m.len() - i,
{
    if i < m.len() {
        assert(well_formed(m[i].value));
        lemma_value_of_well_formed(m[i].value);
        match value_of(m[i].value) {
            Ok(x) => {
                lemma_entries_of_names(m, i + 1, acc.push(EntryView { name: m[i].name, value: x }));
            },
            Err(_) => {},
        }
    }
}

proof fn lemma_values_of_well_formed(l: Seq<ElementView>, i: int, acc: Seq<ValueView>)
    requires
        0 <= i,
        all_well_formed(l),
        values_well_formed(acc),
    ensures
        values_of(l, i, acc) matches Ok(r) ==> values_well_formed(r),
    decreases l, l.len() - i,
{
    if i < l.len() {
        assert(well_formed(l[i]));
        lemma_value_of_well_formed(l[i]);
        match value_of(l[i]) {
            Ok(x) => {
                lemma_values_of_well_formed(l, i + 1, acc.push(x));
            },
            Err(_) => {},
        }
    }
}

/// The value of a well-formed element is well formed.
pub proof fn lemma_value_of_well_formed(e: ElementView)
    requires
        well_formed(e),
    ensures
        value_of(e) matches Ok(v) ==> value_well_formed(v),
    decreases e, 0nat,
{
    match e {
        ElementView::Mapping(m) => {
            lemma_entries_of_names(m, 0, Seq::empty());
            match entries_of(m, 0, Seq::empty()) {
                Ok(r) => {
                    assert forall|i: int, j: int| 0 <= i < j < r.len() implies (
                    #[trigger] r[i]).name != (#[trigger] r[j]).name by {
                        assert(m[i].name != m[j].name);
                    }
                },
                Err(_) => {},
            }
        },
        ElementView::List(l) => {
            lemma_values_of_well_formed(l, 0, Seq::empty());
        },
        _ => {
            lemma_span_value_well_formed(e);
        },
    }
}

/// Finds the first byte `b`.
fn find_byte(bytes: &[u8], b: u8) -> (r: usize)
    ensures
        r == first_byte(bytes@, b, 0),
        r <= bytes.len(),
{
    let n = bytes.len();
    let mut i: usize = 0;
    while i < n && bytes[i] != b
        invariant
            0 <= i <= n,
            n == bytes.len(),
            first_byte(bytes@, b, 0) == first_byte(bytes@, b, i as int),
        decreases n - i,
    {
        i += 1;
    }
    i
}

/// Reads the first array of a document into a vector of values, each read
/// to its leaves.
pub fn bytes_to_vec(bytes: &[u8]) -> (r: Result<Vec<Value>, Error>)
    ensures
        values_outcome(r) == bytes_to_vec_spec(bytes@),
        r matches Ok(v) ==> values_well_formed(value_views(v@)),
{
    let n = bytes.len();
    let i = find_byte(bytes, OPEN_BRACKET);
    if n == 0 || i >= n - 1 {
        let arr: Vec<Value> = Vec::new();
        assert(value_views(arr@) =~= Seq::<ValueView>::empty());
        return Ok(arr);
    }
    proof {
        lemma_array_values_well_formed(bytes@.subrange(i + 1, n as int), Seq::empty());
    }
    values_from(&bytes[i + 1..n])
}

/// Reads the first object of a document into its entries, each value read
/// to its leaves. The entries have distinct names and stand in the order in
/// which the names first occur.
pub fn bytes_to_map(bytes: &[u8]) -> (r: Result<Vec<Entry>, Error>)
    ensures
        entries_outcome(r) == bytes_to_map_spec(bytes@),
        r matches Ok(v) ==> entries_well_formed(entry_views(v@)),
{
    let n = bytes.len();
    let m: Vec<Entry> = Vec::new();
    proof {
        assert(entry_views(m@) =~= Seq::<EntryView>::empty());
    }
    if n == 0 {
        return Ok(m);
    }
    let i = find_byte(bytes, OPEN_BRACE);
    if i >= n {
        return Err(Error::Object);
    }
    if i == n - 1 {
        return Ok(m);
    }
    proof {
        lemma_object_entries_well_formed(bytes@.subrange(i + 1, n as int), Seq::empty());
    }
    entries_from(&bytes[i + 1..n])
}

/// Looks up what a path expression designates in a document and hands it
/// out as a value. `None` means that the path designates nothing.
pub fn get<'a>(document: &'a [u8], expression: &'a [u8]) -> (r: Result<Option<Value>, Error>)
    ensures
        value_result_view(r) == get_spec(document@, expression@),
        r matches Ok(Some(v)) ==> value_well_formed(v@),
{
    let path = Path::parse(expression);
    match bytes_get(document, &path) {
        Ok((Some(e), _)) => {
            proof {
                lemma_value_of_well_formed(e@);
            }
            match e.to_value() {
                Ok(v) => Ok(Some(v)),
                Err(err) => Err(err),
            }
        },
        Ok((None, _)) => Ok(None),
        Err(e) => Err(e),
    }
}

} // verus!
