//! What holds of every lookup: statements about the traversal that are
//! proved once and for all inputs.

use crate::bytes::{
    compound_end, ends_literal, is_closer, is_opener, lemma_compound_end_bounds,
    lemma_literal_end_bounds, lemma_next_mark_bounds, lemma_string_end_bounds, literal_end,
    next_mark, starts_value, string_end, BACKSLASH, HASH, OPEN_BRACE, QUOTE,
};
use crate::element::{lemma_read_one_advances, read_one_spec, ElementView, MemberView};
use crate::error::Error;
use crate::parser::{
    all_well_formed, array_bytes_get_spec, array_nth, array_result, array_scan_spec,
    bytes_get_spec, collects, element_get_spec, element_ref_get_spec, first_match, first_only,
    first_opener, follow_spec, get_spec, lemma_member_position, lemma_selectors_weight_index,
    lemma_with_member_distinct, list_scan_spec, members_well_formed, object_bytes_get_spec,
    object_scan, passes_spec, segment_index, select_to_array_spec, select_to_object_spec,
    stopped, value_result_view, well_formed, with_member,
};
use crate::number::all_digits;
use crate::path::{selectors_weight, unquoted, PathView, QueryView, SubSelectorView};
use crate::syntax::{
    is_plain_key, lemma_paren_end_bounds, lemma_parse_plain_key, lemma_parse_weight, parse_spec,
    segment_of,
};
use crate::value::{value_of, Value, ValueView};
use crate::wild::wild_matches;
use vstd::prelude::*;
use vstd::utf8::valid_utf8;

verus! {

/// The members of an object, reading them from the front of `s` up to the
/// bracket that closes the object, after those in `acc`, with what remains
/// after that bracket. The name of a member is its key without the quotes.
pub open spec fn object_members(s: Seq<u8>, acc: Seq<MemberView>) -> Result<
    (Seq<MemberView>, Seq<u8>),
    Error,
>
    decreases s.len(),
{
    match read_one_spec(s) {
        Err(e) => Err(e),
        Ok((None, rest)) => Ok((acc, rest)),
        Ok((Some(ElementView::String(raw)), rest)) => match read_one_spec(rest) {
            Err(e) => Err(e),
            Ok((None, after)) => Ok((acc, after)),
            Ok((Some(v), after)) => {
                proof {
                    lemma_read_one_advances(s);
                    lemma_read_one_advances(rest);
                }
                object_members(after, acc.push(MemberView { name: unquoted(raw), value: v }))
            },
        },
        Ok((Some(_), _)) => Err(Error::ObjectKey),
    }
}

/// The value of the last of the first `n` members whose name matches
/// `part`.
pub open spec fn last_match(m: Seq<MemberView>, part: Seq<u8>, n: int) -> Option<ElementView>
    decreases n,
{
    if n <= 0 || n > m.len() {
        None
    } else if wild_matches(part, m[n - 1].name) {
        Some(m[n - 1].value)
    } else {
        last_match(m, part, n - 1)
    }
}

/// Scanning an object whose members can all be read yields the value of
/// the last member that matches.
pub proof fn lemma_object_scan_members(s: Seq<u8>, part: Seq<u8>, acc: Seq<MemberView>)
    ensures
        object_members(s, acc) matches Ok((all, rest)) ==> object_scan(
            s,
            part,
            last_match(acc, part, acc.len() as int),
        ) == Ok::<(Option<ElementView>, Seq<u8>), Error>(
            (last_match(all, part, all.len() as int), rest),
        ),
    decreases s.len(),
{
    match read_one_spec(s) {
        Ok((Some(ElementView::String(raw)), rest)) => match read_one_spec(rest) {
            Ok((Some(v), after)) => {
                lemma_read_one_advances(s);
                lemma_read_one_advances(rest);
                let next = acc.push(MemberView { name: unquoted(raw), value: v });
                assert(next.drop_last() =~= acc);
                assert(last_match(next, part, next.len() as int) == if wild_matches(
                    part,
                    unquoted(raw),
                ) {
                    Some(v)
                } else {
                    last_match(next, part, acc.len() as int)
                });
                lemma_last_match_prefix(acc, next, part, acc.len() as int);
                lemma_object_scan_members(after, part, next);
            },
            _ => {},
        },
        _ => {},
    }
}

/// The last match among the first `n` members depends on those members
/// only.
pub proof fn lemma_last_match_prefix(a: Seq<MemberView>, b: Seq<MemberView>, part: Seq<u8>, n: int)
    requires
        0 <= n <= a.len() <= b.len(),
        forall|i: int| 0 <= i < n ==> a[i] == b[i],
    ensures
        last_match(a, part, n) == last_match(b, part, n),
    decreases n,
{
    if n > 0 {
        lemma_last_match_prefix(a, b, part, n - 1);
    }
}

/// The last match is the member at `i` when that member matches and none
/// after it does; there is none when no member matches.
pub proof fn lemma_last_match_at(m: Seq<MemberView>, part: Seq<u8>, n: int, i: int)
    requires
        0 <= n <= m.len(),
        i < n,
        i >= 0 ==> wild_matches(part, m[i].name),
        forall|j: int| i < j < n && 0 <= j ==> !wild_matches(part, (#[trigger] m[j]).name),
    ensures
        last_match(m, part, n) == if i >= 0 {
            Some(m[i].value)
        } else {
            None
        },
    decreases n,
{
    if n > 0 && n - 1 != i {
        assert(!wild_matches(part, m[n - 1].name));
        lemma_last_match_at(m, part, n - 1, i);
    }
}

/// What a path designates in an object whose members can all be read, said
/// over those members: the value of the last member whose key matches the
/// segment, after the continuation, and nothing where no key matches.
pub proof fn law_object_lookup(s: Seq<u8>, p: PathView)
    requires
        s.len() > 0,
    ensures
        object_members(s.subrange(1, s.len() as int), Seq::empty()) matches Ok((all, rest))
            ==> object_bytes_get_spec(s, p) == (match last_match(all, p.part, all.len() as int) {
            Some(v) => match follow_spec(v, p.next) {
                Ok(r) => Ok((r, rest)),
                Err(e) => Err(e),
            },
            None => Ok((None, rest)),
        }),
{
    lemma_object_scan_members(s.subrange(1, s.len() as int), p.part, Seq::empty());
}

/// Of the members of an object whose key matches a segment, the last one
/// gives the value.
pub proof fn law_last_occurrence_wins(s: Seq<u8>, p: PathView, i: int)
    requires
        s.len() > 0,
        object_members(s.subrange(1, s.len() as int), Seq::empty()) matches Ok((all, _)) && 0 <= i
            < all.len() && p.is_match(all[i].name) && (forall|j: int|
            i < j < all.len() ==> !p.is_match((#[trigger] all[j]).name)),
    ensures
        object_members(s.subrange(1, s.len() as int), Seq::empty()) matches Ok((all, rest))
            && object_bytes_get_spec(s, p) == (match follow_spec(all[i].value, p.next) {
            Ok(r) => Ok::<(Option<ElementView>, Seq<u8>), Error>((r, rest)),
            Err(e) => Err(e),
        }),
{
    law_object_lookup(s, p);
    match object_members(s.subrange(1, s.len() as int), Seq::empty()) {
        Ok((all, _)) => {
            lemma_last_match_at(all, p.part, all.len() as int, i);
        },
        Err(_) => {},
    }
}

/// A key that no member of an object has designates nothing, and is no
/// error.
pub proof fn law_missing_key_is_none(s: Seq<u8>, p: PathView)
    requires
        s.len() > 0,
        object_members(s.subrange(1, s.len() as int), Seq::empty()) matches Ok((all, _))
            && forall|j: int| 0 <= j < all.len() ==> !p.is_match((#[trigger] all[j]).name),
    ensures
        object_members(s.subrange(1, s.len() as int), Seq::empty()) matches Ok((_, rest))
            && object_bytes_get_spec(s, p) == Ok::<(Option<ElementView>, Seq<u8>), Error>(
            (None, rest),
        ),
{
    law_object_lookup(s, p);
    match object_members(s.subrange(1, s.len() as int), Seq::empty()) {
        Ok((all, _)) => {
            lemma_last_match_at(all, p.part, all.len() as int, -1);
        },
        Err(_) => {},
    }
}

/// The elements of an array, reading them from the front of `s` up to the
/// bracket that closes the array, after those in `acc`, with what remains
/// after that bracket.
pub open spec fn array_elements(s: Seq<u8>, acc: Seq<ElementView>) -> Result<
    (Seq<ElementView>, Seq<u8>),
    Error,
>
    decreases s.len(),
{
    match read_one_spec(s) {
        Err(e) => Err(e),
        Ok((None, rest)) => Ok((acc, rest)),
        Ok((Some(v), rest)) => {
            proof {
                lemma_read_one_advances(s);
            }
            array_elements(rest, acc.push(v))
        },
    }
}

/// Reading on from `acc` keeps `acc` at the front of what is read.
pub proof fn lemma_array_elements_prefix(s: Seq<u8>, acc: Seq<ElementView>)
    ensures
        array_elements(s, acc) matches Ok((all, _)) ==> acc.len() <= all.len() && forall|i: int|
            0 <= i < acc.len() ==> all[i] == acc[i],
    decreases s.len(),
{
    match read_one_spec(s) {
        Ok((Some(v), rest)) => {
            lemma_read_one_advances(s);
            lemma_array_elements_prefix(rest, acc.push(v));
        },
        _ => {},
    }
}

/// In an array whose elements can all be read, an index below their number
/// designates the element at that index, and any other index designates
/// nothing, with what remains after the array.
pub proof fn lemma_array_nth_elements(s: Seq<u8>, acc: Seq<ElementView>, k: nat)
    requires
        array_elements(s, acc) is Ok,
    ensures
        array_elements(s, acc) matches Ok((all, rest)) && acc.len() <= all.len() && (if acc.len()
            + k < all.len() {
            array_nth(s, k) matches Ok((Some(v), _)) && v == all[(acc.len() + k) as int]
        } else {
            array_nth(s, k) == Ok::<(Option<ElementView>, Seq<u8>), Error>((None, rest))
        }),
    decreases s.len(),
{
    lemma_array_elements_prefix(s, acc);
    match read_one_spec(s) {
        Ok((Some(v), rest)) => {
            lemma_read_one_advances(s);
            let next = acc.push(v);
            lemma_array_elements_prefix(rest, next);
            if k > 0 {
                lemma_array_nth_elements(rest, next, (k - 1) as nat);
            }
        },
        _ => {},
    }
}

/// An index that an array does not have designates nothing, and is no
/// error.
pub proof fn law_index_out_of_range_is_none(s: Seq<u8>, p: PathView, k: nat)
    requires
        s.len() > 0,
        valid_utf8(p.part),
        segment_index(p.part) == Some(k),
        array_elements(s.subrange(1, s.len() as int), Seq::empty()) matches Ok((all, _)) && k
            >= all.len(),
    ensures
        array_elements(s.subrange(1, s.len() as int), Seq::empty()) matches Ok((_, rest))
            && array_bytes_get_spec(s, p) == Ok::<(Option<ElementView>, Seq<u8>), Error>(
            (None, rest),
        ),
{
    lemma_array_nth_elements(s.subrange(1, s.len() as int), Seq::empty(), k);
}

/// An index that an array has designates the element at that index, after
/// the continuation.
pub proof fn law_index_in_range(s: Seq<u8>, p: PathView, k: nat)
    requires
        s.len() > 0,
        valid_utf8(p.part),
        segment_index(p.part) == Some(k),
        array_elements(s.subrange(1, s.len() as int), Seq::empty()) matches Ok((all, _)) && k
            < all.len(),
    ensures
        array_elements(s.subrange(1, s.len() as int), Seq::empty()) matches Ok((all, _)) && (
        match follow_spec(all[k as int], p.next) {
            Ok(r) => array_bytes_get_spec(s, p) matches Ok((found, _)) && found == r,
            Err(e) => array_bytes_get_spec(s, p) == Err::<(Option<ElementView>, Seq<u8>), Error>(
                e,
            ),
        }),
{
    lemma_array_nth_elements(s.subrange(1, s.len() as int), Seq::empty(), k);
}

/// Counting the elements of an array under a bare count marker.
pub proof fn lemma_count_elements(s: Seq<u8>, p: PathView, seen: Seq<ElementView>)
    requires
        !p.query.on,
        p.next is None,
        p.arrch,
        array_elements(s, seen) is Ok,
    ensures
        array_elements(s, seen) matches Ok((all, rest)) && array_scan_spec(
            s,
            p,
            seen.len(),
            Seq::empty(),
        ) == Ok::<(Option<ElementView>, Seq<u8>), Error>(
            (Some(ElementView::Count(all.len())), rest),
        ),
    decreases s.len(),
{
    assert(!collects(p) && !first_only(p));
    match read_one_spec(s) {
        Ok((Some(v), rest)) => {
            lemma_read_one_advances(s);
            lemma_count_elements(rest, p, seen.push(v));
            assert(passes_spec(p.query, v) == Ok::<bool, Error>(true));
            assert(follow_spec(v, p.next) == Ok::<Option<ElementView>, Error>(Some(v)));
        },
        Ok((None, rest)) => {
            assert(array_result(p, seen.len(), Seq::empty()) == Some(
                ElementView::Count(seen.len()),
            ));
        },
        _ => {},
    }
}

/// The count marker at the end of a path designates the number of elements
/// of an array.
pub proof fn law_count_is_number_of_elements(s: Seq<u8>, p: PathView)
    requires
        s.len() > 0,
        valid_utf8(p.part),
        segment_index(p.part) is None,
        !p.query.on,
        p.next is None,
        p.arrch,
        array_elements(s.subrange(1, s.len() as int), Seq::empty()) is Ok,
    ensures
        array_elements(s.subrange(1, s.len() as int), Seq::empty()) matches Ok((all, rest))
            && array_bytes_get_spec(s, p) == Ok::<(Option<ElementView>, Seq<u8>), Error>(
            (Some(ElementView::Count(all.len())), rest),
        ),
{
    lemma_count_elements(s.subrange(1, s.len() as int), p, Seq::empty());
}

/// Two lookups of one path expression in one document give the same
/// result: what `get` returns is a function of the bytes it is given.
pub proof fn law_get_is_repeatable(
    first: Result<Option<Value>, Error>,
    second: Result<Option<Value>, Error>,
    document: Seq<u8>,
    expression: Seq<u8>,
)
    requires
        value_result_view(first) == get_spec(document, expression),
        value_result_view(second) == get_spec(document, expression),
    ensures
        value_result_view(first) == value_result_view(second),
        first is Err ==> second == first,
{
}

/// A string without its closing quote, met where a value is read, is the
/// hard error `String`.
pub proof fn law_unterminated_string_is_error(s: Seq<u8>)
    requires
        next_mark(s, 0) < s.len(),
        s[next_mark(s, 0)] == QUOTE,
        string_end(s, next_mark(s, 0) + 1) is None,
    ensures
        read_one_spec(s) == Err::<(Option<ElementView>, Seq<u8>), Error>(Error::String),
{
}

/// Once a member has matched, nothing that is read after it can make the
/// lookup fail or come back empty: a member that cannot be read ends the
/// scan, and a match stands.
pub proof fn law_match_survives_what_follows(s: Seq<u8>, part: Seq<u8>, found: ElementView)
    ensures
        object_scan(s, part, Some(found)) matches Ok((Some(_), _)),
    decreases s.len(),
{
    match read_one_spec(s) {
        Ok((Some(ElementView::String(raw)), rest)) => match read_one_spec(rest) {
            Ok((Some(v), after)) => {
                lemma_read_one_advances(s);
                lemma_read_one_advances(rest);
                if wild_matches(part, unquoted(raw)) {
                    law_match_survives_what_follows(after, part, v);
                } else {
                    law_match_survives_what_follows(after, part, found);
                }
            },
            _ => {},
        },
        _ => {},
    }
}

/// A member that cannot be read, met after a match and before the object
/// closes, ends the lookup with that match.
pub proof fn law_malformed_member_after_match(
    s: Seq<u8>,
    part: Seq<u8>,
    found: ElementView,
    e: Error,
)
    requires
        read_one_spec(s) matches Ok((Some(ElementView::String(_)), rest)) && read_one_spec(rest)
            == Err::<(Option<ElementView>, Seq<u8>), Error>(e),
    ensures
        object_scan(s, part, Some(found)) == Ok::<(Option<ElementView>, Seq<u8>), Error>(
            (Some(found), Seq::empty()),
        ),
        object_scan(s, part, None) == Err::<(Option<ElementView>, Seq<u8>), Error>(e),
{
}

proof fn lemma_first_opener_after_prefix(pre: Seq<u8>, s: Seq<u8>, i: int)
    requires
        0 <= i <= pre.len(),
        forall|k: int| 0 <= k < pre.len() ==> !is_opener(#[trigger] pre[k]),
    ensures
        first_opener(pre + s, i) == pre.len() + first_opener(s, 0),
    decreases pre.len() - i,
{
    if i < pre.len() {
        assert((pre + s)[i] == pre[i]);
        lemma_first_opener_after_prefix(pre, s, i + 1);
    } else {
        lemma_first_opener_shift(pre, s, 0);
    }
}

proof fn lemma_first_opener_shift(pre: Seq<u8>, s: Seq<u8>, j: int)
    requires
        0 <= j <= s.len(),
    ensures
        first_opener(pre + s, pre.len() + j) == pre.len() + first_opener(s, j),
    decreases s.len() - j,
{
    if j < s.len() {
        assert((pre + s)[pre.len() + j] == s[j]);
        if !is_opener(s[j]) {
            lemma_first_opener_shift(pre, s, j + 1);
        }
    }
}

/// Bytes before the first object or array of a document, whatever they
/// are, do not change what a path that is no group designates.
pub proof fn law_prefix_is_ignored(pre: Seq<u8>, s: Seq<u8>, p: PathView)
    requires
        forall|k: int| 0 <= k < pre.len() ==> !is_opener(#[trigger] pre[k]),
        p.selectors is None,
    ensures
        bytes_get_spec(pre + s, p) == bytes_get_spec(s, p),
{
    let t = pre + s;
    lemma_first_opener_after_prefix(pre, s, 0);
    let i = first_opener(s, 0);
    lemma_first_opener_bounds(s, 0);
    if p.ok && t.len() > 0 {
        if i < s.len() {
            assert(t[pre.len() + i] == s[i]);
            assert(t.subrange(pre.len() + i, t.len() as int) =~= s.subrange(i, s.len() as int));
        }
    }
}

proof fn lemma_first_opener_bounds(s: Seq<u8>, i: int)
    requires
        0 <= i <= s.len(),
    ensures
        i <= first_opener(s, i) <= s.len(),
    decreases s.len() - i,
{
    if i < s.len() && !is_opener(s[i]) {
        lemma_first_opener_bounds(s, i + 1);
    }
}

/// Looking up a plain key in a document whose first container is an
/// object, all of whose members can be read, gives the value of the last
/// member of that key, and nothing where no member has the key.
pub proof fn law_get_member(document: Seq<u8>, key: Seq<u8>)
    requires
        is_plain_key(key),
        first_opener(document, 0) < document.len(),
        document[first_opener(document, 0)] == OPEN_BRACE,
    ensures
        object_members(
            document.subrange(first_opener(document, 0) + 1, document.len() as int),
            Seq::empty(),
        ) matches Ok((all, _)) ==> get_spec(document, key) == (match last_match(
            all,
            key,
            all.len() as int,
        ) {
            Some(v) => match value_of(v) {
                Ok(x) => Ok::<Option<ValueView>, Error>(Some(x)),
                Err(e) => Err(e),
            },
            None => Ok(None),
        }),
{
    lemma_parse_plain_key(key);
    lemma_first_opener_bounds(document, 0);
    let p = parse_spec(key);
    let i = first_opener(document, 0);
    let s = document.subrange(i, document.len() as int);
    assert(s.subrange(1, s.len() as int) =~= document.subrange(i + 1, document.len() as int));
    law_object_lookup(s, p);
    assert(bytes_get_spec(document, p) == object_bytes_get_spec(s, p));
    match object_members(s.subrange(1, s.len() as int), Seq::empty()) {
        Ok((all, _)) => {
            match last_match(all, key, all.len() as int) {
                Some(v) => {
                    assert(follow_spec(v, p.next) == Ok::<Option<ElementView>, Error>(Some(v)));
                },
                None => {},
            }
        },
        Err(_) => {},
    }
}

/// What the tokenizer reads is well formed: it is a span of the document.
pub proof fn lemma_read_one_well_formed(s: Seq<u8>)
    ensures
        read_one_spec(s) matches Ok((Some(v), _)) ==> well_formed(v),
{
}

proof fn lemma_object_scan_well_formed(s: Seq<u8>, part: Seq<u8>, found: Option<ElementView>)
    requires
        found matches Some(f) ==> well_formed(f),
    ensures
        object_scan(s, part, found) matches Ok((Some(v), _)) ==> well_formed(v),
    decreases s.len(),
{
    match read_one_spec(s) {
        Ok((Some(ElementView::String(raw)), rest)) => match read_one_spec(rest) {
            Ok((Some(v), after)) => {
                lemma_read_one_advances(s);
                lemma_read_one_advances(rest);
                lemma_read_one_well_formed(rest);
                lemma_object_scan_well_formed(
                    after,
                    part,
                    if wild_matches(part, unquoted(raw)) {
                        Some(v)
                    } else {
                        found
                    },
                );
            },
            _ => {},
        },
        _ => {},
    }
}

proof fn lemma_array_nth_well_formed(s: Seq<u8>, k: nat)
    ensures
        array_nth(s, k) matches Ok((Some(v), _)) ==> well_formed(v),
    decreases s.len(),
{
    match read_one_spec(s) {
        Ok((Some(v), rest)) => {
            lemma_read_one_advances(s);
            lemma_read_one_well_formed(s);
            if k > 0 {
                lemma_array_nth_well_formed(rest, (k - 1) as nat);
            }
        },
        _ => {},
    }
}

proof fn lemma_first_match_bounds(m: Seq<MemberView>, part: Seq<u8>, i: int)
    requires
        0 <= i,
    ensures
        first_match(m, part, i) matches Some((k, v)) ==> i <= k < m.len() && v == m[k].value,
    decreases m.len() - i,
{
    if i < m.len() && !wild_matches(part, m[i].name) {
        lemma_first_match_bounds(m, part, i + 1);
    }
}

proof fn lemma_with_member_well_formed(m: Seq<MemberView>, name: Seq<u8>, value: ElementView)
    requires
        members_well_formed(m),
        well_formed(value),
    ensures
        members_well_formed(with_member(m, name, value)),
{
    lemma_with_member_distinct(m, name, value);
    lemma_member_position(m, name, 0);
    let r = with_member(m, name, value);
    assert forall|i: int| 0 <= i < r.len() implies well_formed((#[trigger] r[i]).value) by {
        if i < m.len() {
            assert(well_formed(m[i].value));
        }
    }
}

/// Every element that a lookup in a buffer yields is well formed: in each
/// of its maps, at any depth, no name occurs twice.
pub proof fn law_bytes_get_well_formed(s: Seq<u8>, p: PathView)
    ensures
        bytes_get_spec(s, p) matches Ok((Some(e), _)) ==> well_formed(e),
    decreases p.weight(), 2nat, 0nat,
{
    if !p.ok || s.len() == 0 {
    } else if let Some(sels) = p.selectors {
        if p.arrsel {
            lemma_select_to_array_well_formed(s, sels, 0, Seq::empty());
            match select_to_array_spec(s, sels, 0, Seq::empty()) {
                Ok(l) => {
                    assert(well_formed(ElementView::List(l)));
                    lemma_follow_well_formed(ElementView::List(l), p.next);
                },
                Err(_) => {},
            }
        } else {
            lemma_select_to_object_well_formed(s, sels, 0, Seq::empty());
            match select_to_object_spec(s, sels, 0, Seq::empty()) {
                Ok(m) => {
                    assert(well_formed(ElementView::Mapping(m)));
                    lemma_follow_well_formed(ElementView::Mapping(m), p.next);
                },
                Err(_) => {},
            }
        }
    } else {
        let i = first_opener(s, 0);
        if i < s.len() {
            if s[i] == OPEN_BRACE {
                lemma_object_bytes_get_well_formed(s.subrange(i, s.len() as int), p);
            } else {
                lemma_array_bytes_get_well_formed(s.subrange(i, s.len() as int), p);
            }
        }
    }
}

proof fn lemma_select_to_array_well_formed(
    s: Seq<u8>,
    sels: Seq<SubSelectorView>,
    i: int,
    acc: Seq<ElementView>,
)
    requires
        0 <= i,
        all_well_formed(acc),
    ensures
        select_to_array_spec(s, sels, i, acc) matches Ok(l) ==> all_well_formed(l),
    decreases selectors_weight(sels), 4nat, sels.len() - i,
{
    if i < sels.len() {
        lemma_parse_weight(sels[i].path);
        lemma_selectors_weight_index(sels, i);
        law_bytes_get_well_formed(s, parse_spec(sels[i].path));
        match bytes_get_spec(s, parse_spec(sels[i].path)) {
            Ok((Some(v), _)) => {
                lemma_select_to_array_well_formed(s, sels, i + 1, acc.push(v));
            },
            Ok((None, _)) => {
                lemma_select_to_array_well_formed(s, sels, i + 1, acc);
            },
            Err(_) => {},
        }
    }
}

proof fn lemma_select_to_object_well_formed(
    s: Seq<u8>,
    sels: Seq<SubSelectorView>,
    i: int,
    acc: Seq<MemberView>,
)
    requires
        0 <= i,
        members_well_formed(acc),
    ensures
        select_to_object_spec(s, sels, i, acc) matches Ok(m) ==> members_well_formed(m),
    decreases selectors_weight(sels), 4nat, sels.len() - i,
{
    if i < sels.len() {
        lemma_parse_weight(sels[i].path);
        lemma_selectors_weight_index(sels, i);
        law_bytes_get_well_formed(s, parse_spec(sels[i].path));
        match bytes_get_spec(s, parse_spec(sels[i].path)) {
            Ok((Some(v), _)) => {
                lemma_with_member_well_formed(acc, sels[i].name, v);
                lemma_select_to_object_well_formed(
                    s,
                    sels,
                    i + 1,
                    with_member(acc, sels[i].name, v),
                );
            },
            Ok((None, _)) => {
                lemma_select_to_object_well_formed(s, sels, i + 1, acc);
            },
            Err(_) => {},
        }
    }
}

proof fn lemma_follow_well_formed(e: ElementView, next: Option<Box<PathView>>)
    requires
        well_formed(e),
    ensures
        follow_spec(e, next) matches Ok(Some(r)) ==> well_formed(r),
    decreases
        match next {
            Some(n) => n.weight(),
            None => 0,
        },
        4nat,
        0nat,
{
    match next {
        Some(n) => {
            law_element_get_well_formed(e, *n);
        },
        None => {},
    }
}

/// Every element that a lookup in a well-formed element yields is well
/// formed.
pub proof fn law_element_get_well_formed(e: ElementView, p: PathView)
    requires
        well_formed(e),
    ensures
        element_get_spec(e, p) matches Ok(Some(r)) ==> well_formed(r),
        element_ref_get_spec(e, p) matches Ok(Some(r)) ==> well_formed(r),
    decreases p.weight(), 3nat, 0nat,
{
    if p.ok {
        match e {
            ElementView::Array(span) => {
                law_bytes_get_well_formed(span, p);
            },
            ElementView::Object(span) => {
                law_bytes_get_well_formed(span, p);
            },
            ElementView::Mapping(m) => {
                lemma_first_match_bounds(m, p.part, 0);
                match first_match(m, p.part, 0) {
                    Some((k, v)) => {
                        assert(well_formed(m[k].value));
                        lemma_follow_well_formed(v, p.next);
                    },
                    None => {},
                }
            },
            ElementView::List(l) => {
                match segment_index(p.part) {
                    Some(k) => {
                        if k < l.len() {
                            assert(well_formed(l[k as int]));
                            lemma_follow_well_formed(l[k as int], p.next);
                        }
                    },
                    None => {
                        lemma_list_scan_well_formed(l, p, 0, 0, Seq::empty());
                    },
                }
            },
            _ => {},
        }
    }
}

proof fn lemma_list_scan_well_formed(
    l: Seq<ElementView>,
    p: PathView,
    i: int,
    count: nat,
    acc: Seq<ElementView>,
)
    requires
        0 <= i,
        all_well_formed(l),
        all_well_formed(acc),
    ensures
        list_scan_spec(l, p, i, count, acc) matches Ok(Some(r)) ==> well_formed(r),
    decreases p.weight(), 2nat, l.len() - i,
{
    if i < l.len() {
        assert(well_formed(l[i]));
        match passes_spec(p.query, l[i]) {
            Ok(false) => {
                lemma_list_scan_well_formed(l, p, i + 1, count, acc);
            },
            Ok(true) => {
                lemma_follow_well_formed(l[i], p.next);
                match follow_spec(l[i], p.next) {
                    Ok(None) => {
                        lemma_list_scan_well_formed(l, p, i + 1, count + 1, acc);
                    },
                    Ok(Some(w)) => {
                        if !first_only(p) {
                            lemma_list_scan_well_formed(
                                l,
                                p,
                                i + 1,
                                count + 1,
                                if collects(p) {
                                    acc.push(w)
                                } else {
                                    acc
                                },
                            );
                        }
                    },
                    Err(_) => {},
                }
            },
            Err(_) => {},
        }
    } else {
        assert(well_formed(ElementView::List(acc)));
        assert(well_formed(ElementView::Count(count)));
    }
}

proof fn lemma_object_bytes_get_well_formed(s: Seq<u8>, p: PathView)
    ensures
        object_bytes_get_spec(s, p) matches Ok((Some(e), _)) ==> well_formed(e),
    decreases p.weight(), 1nat, 0nat,
{
    if s.len() > 0 {
        lemma_object_scan_well_formed(s.subrange(1, s.len() as int), p.part, None);
        match object_scan(s.subrange(1, s.len() as int), p.part, None) {
            Ok((Some(v), _)) => {
                lemma_follow_well_formed(v, p.next);
            },
            _ => {},
        }
    }
}

proof fn lemma_array_bytes_get_well_formed(s: Seq<u8>, p: PathView)
    ensures
        array_bytes_get_spec(s, p) matches Ok((Some(e), _)) ==> well_formed(e),
    decreases p.weight(), 1nat, 0nat,
{
    if valid_utf8(p.part) && s.len() > 0 {
        let body = s.subrange(1, s.len() as int);
        match segment_index(p.part) {
            Some(k) => {
                lemma_array_nth_well_formed(body, k);
                match array_nth(body, k) {
                    Ok((Some(v), _)) => {
                        lemma_follow_well_formed(v, p.next);
                    },
                    _ => {},
                }
            },
            None => {
                lemma_array_scan_well_formed(body, p, 0, Seq::empty());
            },
        }
    }
}

proof fn lemma_array_scan_well_formed(s: Seq<u8>, p: PathView, count: nat, acc: Seq<ElementView>)
    requires
        all_well_formed(acc),
    ensures
        array_scan_spec(s, p, count, acc) matches Ok((Some(e), _)) ==> well_formed(e),
    decreases p.weight(), 0nat, s.len(),
{
    match read_one_spec(s) {
        Ok((None, _)) => {
            assert(well_formed(ElementView::List(acc)));
            assert(well_formed(ElementView::Count(count)));
        },
        Ok((Some(v), rest)) => {
            lemma_read_one_advances(s);
            lemma_read_one_well_formed(s);
            match passes_spec(p.query, v) {
                Ok(false) => {
                    lemma_array_scan_well_formed(rest, p, count, acc);
                },
                Ok(true) => {
                    lemma_follow_well_formed(v, p.next);
                    match follow_spec(v, p.next) {
                        Ok(None) => {
                            lemma_array_scan_well_formed(rest, p, count + 1, acc);
                        },
                        Ok(Some(w)) => {
                            if !first_only(p) {
                                lemma_array_scan_well_formed(
                                    rest,
                                    p,
                                    count + 1,
                                    if collects(p) {
                                        acc.push(w)
                                    } else {
                                        acc
                                    },
                                );
                            }
                        },
                        Err(_) => {},
                    }
                },
                Err(_) => {},
            }
        },
        Err(_) => {},
    }
}

/// Whether two buffers hold the same first `n` bytes.
pub open spec fn agree(a: Seq<u8>, b: Seq<u8>, n: int) -> bool {
    &&& 0 <= n <= a.len()
    &&& n <= b.len()
    &&& forall|k: int| 0 <= k < n ==> a[k] == b[k]
}

proof fn lemma_next_mark_local(a: Seq<u8>, b: Seq<u8>, n: int, i: int)
    requires
        agree(a, b, n),
        0 <= i,
        next_mark(a, i) < n,
    ensures
        next_mark(b, i) == next_mark(a, i),
    decreases a.len() - i,
{
    if i < a.len() && !(starts_value(a[i]) || is_closer(a[i])) {
        lemma_next_mark_bounds(a, i + 1);
        lemma_next_mark_local(a, b, n, i + 1);
    }
}

proof fn lemma_string_end_local(a: Seq<u8>, b: Seq<u8>, n: int, i: int)
    requires
        agree(a, b, n),
        0 <= i,
        string_end(a, i) matches Some(e) && e <= n,
    ensures
        string_end(b, i) == string_end(a, i),
    decreases a.len() - i,
{
    if i < a.len() && a[i] != QUOTE {
        if a[i] == BACKSLASH {
            lemma_string_end_bounds(a, i + 2);
            lemma_string_end_local(a, b, n, i + 2);
        } else {
            lemma_string_end_bounds(a, i + 1);
            lemma_string_end_local(a, b, n, i + 1);
        }
    }
}

proof fn lemma_compound_end_local(a: Seq<u8>, b: Seq<u8>, n: int, i: int, depth: nat)
    requires
        agree(a, b, n),
        0 <= i,
        compound_end(a, i, depth) matches Some(e) && e <= n,
    ensures
        compound_end(b, i, depth) == compound_end(a, i, depth),
    decreases a.len() - i,
{
    if i < a.len() {
        if a[i] == QUOTE {
            lemma_string_end_bounds(a, i + 1);
            match string_end(a, i + 1) {
                Some(e) => {
                    lemma_compound_end_bounds(a, e, depth);
                    lemma_string_end_local(a, b, n, i + 1);
                    lemma_compound_end_local(a, b, n, e, depth);
                },
                None => {},
            }
        } else if a[i] == BACKSLASH {
            lemma_compound_end_bounds(a, i + 2, depth);
            lemma_compound_end_local(a, b, n, i + 2, depth);
        } else if is_opener(a[i]) {
            lemma_compound_end_bounds(a, i + 1, depth + 1);
            lemma_compound_end_local(a, b, n, i + 1, depth + 1);
        } else if is_closer(a[i]) {
            if depth > 1 {
                lemma_compound_end_bounds(a, i + 1, (depth - 1) as nat);
                lemma_compound_end_local(a, b, n, i + 1, (depth - 1) as nat);
            }
        } else {
            lemma_compound_end_bounds(a, i + 1, depth);
            lemma_compound_end_local(a, b, n, i + 1, depth);
        }
    }
}

proof fn lemma_literal_end_local(a: Seq<u8>, b: Seq<u8>, n: int, i: int)
    requires
        agree(a, b, n),
        0 <= i,
        literal_end(a, i) < n,
    ensures
        literal_end(b, i) == literal_end(a, i),
    decreases a.len() - i,
{
    if i < a.len() && !ends_literal(a[i]) {
        lemma_literal_end_bounds(a, i + 1);
        lemma_literal_end_local(a, b, n, i + 1);
    }
}

/// Reading one value depends only on the bytes up to and including the
/// first byte after that value.
pub proof fn lemma_read_one_local(a: Seq<u8>, b: Seq<u8>, n: int)
    requires
        agree(a, b, n),
        read_one_spec(a) matches Ok((Some(_), rest)) && a.len() - rest.len() < n,
    ensures
        read_one_spec(a) matches Ok((Some(v), rest)) && read_one_spec(b) == Ok::<
            (Option<ElementView>, Seq<u8>),
            Error,
        >((Some(v), b.subrange(a.len() - rest.len(), b.len() as int))),
{
    let i = next_mark(a, 0);
    lemma_next_mark_bounds(a, 0);
    lemma_string_end_bounds(a, i + 1);
    lemma_compound_end_bounds(a, i + 1, 1);
    lemma_literal_end_bounds(a, i);
    lemma_next_mark_local(a, b, n, 0);
    assert(a[i] == b[i]);
    if a[i] == QUOTE {
        lemma_string_end_local(a, b, n, i + 1);
        let e = string_end(a, i + 1).unwrap();
        assert(a.subrange(i, e) =~= b.subrange(i, e));
    } else if is_opener(a[i]) {
        lemma_compound_end_local(a, b, n, i + 1, 1);
        let e = compound_end(a, i + 1, 1).unwrap();
        assert(a.subrange(i, e) =~= b.subrange(i, e));
    } else {
        lemma_literal_end_local(a, b, n, i);
        let e = literal_end(a, i);
        assert(a.subrange(i, e) =~= b.subrange(i, e));
    }
}

proof fn lemma_array_nth_local(a: Seq<u8>, b: Seq<u8>, n: int, k: nat)
    requires
        agree(a, b, n),
        array_nth(a, k) matches Ok((Some(_), rest)) && a.len() - rest.len() < n,
    ensures
        array_nth(a, k) matches Ok((Some(v), rest)) && array_nth(b, k) == Ok::<
            (Option<ElementView>, Seq<u8>),
            Error,
        >((Some(v), b.subrange(a.len() - rest.len(), b.len() as int))),
    decreases a.len(),
{
    lemma_read_one_advances(a);
    match read_one_spec(a) {
        Ok((Some(v), rest)) => {
            let e = a.len() - rest.len();
            if k == 0 {
                lemma_read_one_local(a, b, n);
            } else {
                let last = array_nth(rest, (k - 1) as nat);
                lemma_array_nth_advances(rest, (k - 1) as nat);
                lemma_read_one_local(a, b, n);
                let rest_b = b.subrange(e, b.len() as int);
                assert(agree(rest, rest_b, n - e)) by {
                    lemma_read_one_rest(a);
                }
                lemma_array_nth_local(rest, rest_b, n - e, (k - 1) as nat);
                match last {
                    Ok((_, tail)) => {
                        assert(rest_b.subrange(rest.len() - tail.len(), rest_b.len() as int)
                            =~= b.subrange(a.len() - tail.len(), b.len() as int));
                    },
                    Err(_) => {},
                }
            }
        },
        _ => {},
    }
}

/// What remains after a value was read is the end of the input.
pub proof fn lemma_read_one_rest(s: Seq<u8>)
    ensures
        read_one_spec(s) matches Ok((Some(_), rest)) ==> rest.len() <= s.len() && rest
            == s.subrange(s.len() - rest.len(), s.len() as int),
{
    let i = next_mark(s, 0);
    lemma_next_mark_bounds(s, 0);
    if i < s.len() {
        lemma_string_end_bounds(s, i + 1);
        lemma_compound_end_bounds(s, i + 1, 1);
        lemma_literal_end_bounds(s, i);
    }
}

proof fn lemma_array_nth_advances(s: Seq<u8>, k: nat)
    ensures
        array_nth(s, k) matches Ok((_, rest)) ==> rest.len() <= s.len(),
    decreases s.len(),
{
    lemma_read_one_advances(s);
    match read_one_spec(s) {
        Ok((Some(v), rest)) => {
            if k > 0 {
                lemma_array_nth_advances(rest, (k - 1) as nat);
            }
        },
        _ => {},
    }
}

/// The elements that follow the one an index designates are never read:
/// two arrays that agree up to and including the first byte after that
/// element yield the same for every path that starts with that index,
/// whatever else they hold.
pub proof fn law_later_elements_are_not_read(a: Seq<u8>, b: Seq<u8>, n: int, p: PathView, k: nat)
    requires
        agree(a, b, n),
        n >= 1,
        segment_index(p.part) == Some(k),
        array_nth(a.subrange(1, a.len() as int), k) matches Ok((Some(_), rest)) && a.len()
            - rest.len() < n,
    ensures
        match array_bytes_get_spec(a, p) {
            Ok((found, _)) => array_bytes_get_spec(b, p) matches Ok((other, _)) && other == found,
            Err(e) => array_bytes_get_spec(b, p) == Err::<(Option<ElementView>, Seq<u8>), Error>(
                e,
            ),
        },
{
    let body_a = a.subrange(1, a.len() as int);
    let body_b = b.subrange(1, b.len() as int);
    assert(agree(body_a, body_b, n - 1));
    lemma_array_nth_local(body_a, body_b, n - 1, k);
}

/// The elements among the first `n` of a list that pass a filter, in their
/// order.
pub open spec fn kept(l: Seq<ElementView>, q: QueryView, n: int) -> Seq<ElementView>
    decreases n,
{
    if n <= 0 || n > l.len() {
        Seq::empty()
    } else if passes_spec(q, l[n - 1]) == Ok::<bool, Error>(true) {
        kept(l, q, n - 1).push(l[n - 1])
    } else {
        kept(l, q, n - 1)
    }
}

proof fn lemma_kept_prefix(a: Seq<ElementView>, b: Seq<ElementView>, q: QueryView, n: int)
    requires
        0 <= n <= a.len() <= b.len(),
        forall|i: int| 0 <= i < n ==> a[i] == b[i],
    ensures
        kept(a, q, n) == kept(b, q, n),
    decreases n,
{
    if n > 0 {
        lemma_kept_prefix(a, b, q, n - 1);
    }
}

proof fn lemma_filter_all(s: Seq<u8>, p: PathView, seen: Seq<ElementView>, count: nat)
    requires
        p.query.on,
        p.query.all,
        p.next is None,
        array_elements(s, seen) matches Ok((all, _)) && forall|i: int|
            0 <= i < all.len() ==> passes_spec(p.query, #[trigger] all[i]) is Ok,
    ensures
        array_elements(s, seen) matches Ok((all, rest)) && array_scan_spec(
            s,
            p,
            count,
            kept(seen, p.query, seen.len() as int),
        ) == Ok::<(Option<ElementView>, Seq<u8>), Error>(
            (Some(ElementView::List(kept(all, p.query, all.len() as int))), rest),
        ),
    decreases s.len(),
{
    assert(collects(p) && !first_only(p));
    lemma_array_elements_prefix(s, seen);
    match read_one_spec(s) {
        Ok((Some(v), rest)) => {
            lemma_read_one_advances(s);
            let next = seen.push(v);
            lemma_array_elements_prefix(rest, next);
            let all = array_elements(s, seen)->Ok_0.0;
            assert(all[seen.len() as int] == v);
            assert(passes_spec(p.query, v) is Ok);
            lemma_kept_prefix(seen, next, p.query, seen.len() as int);
            assert(follow_spec(v, p.next) == Ok::<Option<ElementView>, Error>(Some(v)));
            if passes_spec(p.query, v) == Ok::<bool, Error>(true) {
                lemma_filter_all(rest, p, next, count + 1);
            } else {
                lemma_filter_all(rest, p, next, count);
            }
        },
        Ok((None, rest)) => {
            assert(array_result(p, count, kept(seen, p.query, seen.len() as int)) == Some(
                ElementView::List(kept(seen, p.query, seen.len() as int)),
            ));
        },
        _ => {},
    }
}

/// A filter that asks for every match, at the end of a path, designates
/// the list of the elements that pass it, in the order of the array: every
/// element that passes is in it once, and nothing else is. The list may be
/// empty. This holds of the scan of the elements whatever the segment's
/// text, and of the lookup in the array where that text is valid UTF-8 and
/// no index, as the text of a filter is.
pub proof fn law_filter_collects_every_match(s: Seq<u8>, p: PathView)
    requires
        s.len() > 0,
        p.query.on,
        p.query.all,
        p.next is None,
        array_elements(s.subrange(1, s.len() as int), Seq::empty()) matches Ok((all, _))
            && forall|i: int|
            0 <= i < all.len() ==> passes_spec(p.query, #[trigger] all[i]) is Ok,
    ensures
        array_elements(s.subrange(1, s.len() as int), Seq::empty()) matches Ok((all, rest)) && {
            let result = Ok::<(Option<ElementView>, Seq<u8>), Error>(
                (Some(ElementView::List(kept(all, p.query, all.len() as int))), rest),
            );
            &&& array_scan_spec(s.subrange(1, s.len() as int), p, 0, Seq::empty()) == result
            &&& valid_utf8(p.part) && segment_index(p.part) is None ==> array_bytes_get_spec(s, p)
                == result
        },
{
    lemma_filter_all(s.subrange(1, s.len() as int), p, Seq::empty(), 0);
}

proof fn lemma_filter_first(s: Seq<u8>, p: PathView, seen: Seq<ElementView>, count: nat, k: int)
    requires
        p.query.on,
        !p.query.all,
        p.next is None,
        seen.len() <= k,
        array_elements(s, seen) matches Ok((all, _)) && k < all.len() && passes_spec(
            p.query,
            all[k],
        ) == Ok::<bool, Error>(true) && forall|i: int|
            seen.len() <= i < k ==> passes_spec(p.query, #[trigger] all[i]) == Ok::<bool, Error>(
                false,
            ),
    ensures
        array_elements(s, seen) matches Ok((all, _)) && array_scan_spec(
            s,
            p,
            count,
            Seq::empty(),
        ) matches Ok((found, _)) && found == Some(all[k]),
    decreases s.len(),
{
    assert(!collects(p) && first_only(p));
    lemma_array_elements_prefix(s, seen);
    match read_one_spec(s) {
        Ok((Some(v), rest)) => {
            lemma_read_one_advances(s);
            let next = seen.push(v);
            lemma_array_elements_prefix(rest, next);
            let all = array_elements(s, seen)->Ok_0.0;
            assert(all[seen.len() as int] == v);
            assert(follow_spec(v, p.next) == Ok::<Option<ElementView>, Error>(Some(v)));
            if seen.len() < k {
                assert(passes_spec(p.query, v) == Ok::<bool, Error>(false));
                lemma_filter_first(rest, p, next, count, k);
            }
        },
        _ => {},
    }
}

proof fn lemma_filter_none(s: Seq<u8>, p: PathView, seen: Seq<ElementView>, count: nat)
    requires
        p.query.on,
        !p.query.all,
        p.next is None,
        array_elements(s, seen) matches Ok((all, _)) && forall|i: int|
            seen.len() <= i < all.len() ==> passes_spec(p.query, #[trigger] all[i]) == Ok::<
                bool,
                Error,
            >(false),
    ensures
        array_elements(s, seen) matches Ok((_, rest)) && array_scan_spec(
            s,
            p,
            count,
            Seq::empty(),
        ) == Ok::<(Option<ElementView>, Seq<u8>), Error>((None, rest)),
    decreases s.len(),
{
    assert(!collects(p) && first_only(p));
    lemma_array_elements_prefix(s, seen);
    match read_one_spec(s) {
        Ok((Some(v), rest)) => {
            lemma_read_one_advances(s);
            let next = seen.push(v);
            lemma_array_elements_prefix(rest, next);
            let all = array_elements(s, seen)->Ok_0.0;
            assert(all[seen.len() as int] == v);
            assert(passes_spec(p.query, v) == Ok::<bool, Error>(false));
            lemma_filter_none(rest, p, next, count);
        },
        Ok((None, rest)) => {
            assert(array_result(p, count, Seq::empty()) is None);
        },
        _ => {},
    }
}

/// A filter that asks for the first match, at the end of a path, designates
/// nothing exactly where no element of the array passes it.
pub proof fn law_filter_finds_nothing(s: Seq<u8>, p: PathView)
    requires
        s.len() > 0,
        p.query.on,
        !p.query.all,
        p.next is None,
        array_elements(s.subrange(1, s.len() as int), Seq::empty()) matches Ok((all, _))
            && forall|i: int|
            0 <= i < all.len() ==> passes_spec(p.query, #[trigger] all[i]) is Ok,
    ensures
        array_elements(s.subrange(1, s.len() as int), Seq::empty()) matches Ok((all, _)) && (
        array_scan_spec(s.subrange(1, s.len() as int), p, 0, Seq::empty()) matches Ok((None, _))
            <==> forall|i: int|
            0 <= i < all.len() ==> passes_spec(p.query, #[trigger] all[i]) == Ok::<bool, Error>(
                false,
            )),
{
    let body = s.subrange(1, s.len() as int);
    let all = array_elements(body, Seq::empty())->Ok_0.0;
    if forall|i: int|
        0 <= i < all.len() ==> passes_spec(p.query, #[trigger] all[i]) == Ok::<bool, Error>(
            false,
        ) {
        lemma_filter_none(body, p, Seq::empty(), 0);
    } else {
        let k = choose|k: int|
            0 <= k < all.len() && passes_spec(p.query, all[k]) == Ok::<bool, Error>(true)
                && forall|i: int|
                0 <= i < k ==> passes_spec(p.query, #[trigger] all[i]) == Ok::<bool, Error>(
                    false,
                );
        lemma_first_passing(all, p.query, all.len() as int);
        lemma_filter_first(body, p, Seq::empty(), 0, k);
    }
}

/// Among elements that all pass or fail, if one passes then one is the
/// first to pass.
proof fn lemma_first_passing(all: Seq<ElementView>, q: QueryView, n: int)
    requires
        0 <= n <= all.len(),
        forall|i: int| 0 <= i < all.len() ==> passes_spec(q, #[trigger] all[i]) is Ok,
        exists|i: int| 0 <= i < n && passes_spec(q, #[trigger] all[i]) != Ok::<bool, Error>(false),
    ensures
        exists|k: int|
            0 <= k < n && passes_spec(q, all[k]) == Ok::<bool, Error>(true) && forall|i: int|
                0 <= i < k ==> passes_spec(q, #[trigger] all[i]) == Ok::<bool, Error>(false),
    decreases n,
{
    if exists|i: int|
        0 <= i < n - 1 && passes_spec(q, #[trigger] all[i]) != Ok::<bool, Error>(false) {
        lemma_first_passing(all, q, n - 1);
    } else {
        let k = n - 1;
        assert(passes_spec(q, all[k]) is Ok);
        assert(passes_spec(q, all[k]) == Ok::<bool, Error>(true));
    }
}

/// A filter that asks for the first match, at the end of a path, designates
/// the first element of the array that passes it.
pub proof fn law_filter_first_match(s: Seq<u8>, p: PathView, k: int)
    requires
        s.len() > 0,
        p.query.on,
        !p.query.all,
        p.next is None,
        array_elements(s.subrange(1, s.len() as int), Seq::empty()) matches Ok((all, _)) && 0 <= k
            < all.len() && passes_spec(p.query, all[k]) == Ok::<bool, Error>(true) && forall|
            i: int,
        |
            0 <= i < k ==> passes_spec(p.query, #[trigger] all[i]) == Ok::<bool, Error>(false),
    ensures
        array_elements(s.subrange(1, s.len() as int), Seq::empty()) matches Ok((all, _))
            && array_scan_spec(s.subrange(1, s.len() as int), p, 0, Seq::empty()) matches Ok(
            (found, _),
        ) && found == Some(all[k]) && (valid_utf8(p.part) && segment_index(p.part) is None
            ==> (array_bytes_get_spec(s, p) matches Ok((other, _)) && other == Some(all[k]))),
{
    lemma_filter_first(s.subrange(1, s.len() as int), p, Seq::empty(), 0, k);
}

/// The segment of a parsed path that carries a filter is no index.
pub proof fn lemma_filter_segment_is_no_index(expression: Seq<u8>)
    requires
        parse_spec(expression).query.on,
    ensures
        segment_index(parse_spec(expression).part) is None,
{
    let p = parse_spec(expression);
    if expression.len() > 0 {
        match segment_of(expression) {
            Some(seg) => {
                lemma_paren_end_bounds(expression, 2, 1);
                assert(expression[0] == HASH);
                assert(p.part.len() > 0 && p.part[0] == HASH);
                assert(!all_digits(p.part));
            },
            None => {},
        }
    }
}

/// Whether a path is a chain of plain segments: each is valid, is valid
/// UTF-8, and is neither a group nor a filter.
pub open spec fn plain_chain(p: PathView) -> bool
    decreases p.weight(),
{
    &&& p.ok
    &&& p.selectors is None
    &&& !p.query.on
    &&& valid_utf8(p.part)
    &&& match p.next {
        Some(n) => plain_chain(*n),
        None => true,
    }
}

/// What the first segment of a path designates in the first container of a
/// buffer, said over the members or elements of that container: in an
/// object the value of the last member whose key matches, in an array the
/// element at the index that the segment writes.
pub open spec fn step(s: Seq<u8>, p: PathView) -> Option<ElementView> {
    let i = first_opener(s, 0);
    if i >= s.len() {
        None
    } else if s[i] == OPEN_BRACE {
        match object_members(s.subrange(i + 1, s.len() as int), Seq::empty()) {
            Ok((all, _)) => last_match(all, p.part, all.len() as int),
            Err(_) => None,
        }
    } else {
        match (array_elements(s.subrange(i + 1, s.len() as int), Seq::empty()), segment_index(p.part)) {
            (Ok((all, _)), Some(k)) => if k < all.len() {
                Some(all[k as int])
            } else {
                None
            },
            _ => None,
        }
    }
}

/// Whether the first container of a buffer can be read for a segment: its
/// members can all be read, or its elements can and the segment is an
/// index.
pub open spec fn step_readable(s: Seq<u8>, p: PathView) -> bool {
    let i = first_opener(s, 0);
    i < s.len() ==> if s[i] == OPEN_BRACE {
        object_members(s.subrange(i + 1, s.len() as int), Seq::empty()) is Ok
    } else {
        array_elements(s.subrange(i + 1, s.len() as int), Seq::empty()) is Ok && segment_index(
            p.part,
        ) is Some
    }
}

/// What a chain of keys and indices designates in a buffer, level by
/// level: each segment is looked up in the container that the one before
/// it designated, and the chain designates nothing as soon as a segment
/// does, or designates a scalar before the chain ends.
pub open spec fn descend(s: Seq<u8>, p: PathView) -> Option<ElementView>
    decreases p.weight(),
{
    match (step(s, p), p.next) {
        (Some(v), Some(n)) => match v {
            ElementView::Array(span) => descend(span, *n),
            ElementView::Object(span) => descend(span, *n),
            _ => None,
        },
        (Some(v), None) => Some(v),
        (None, _) => None,
    }
}

/// Whether every container that a chain passes through can be read.
pub open spec fn readable(s: Seq<u8>, p: PathView) -> bool
    decreases p.weight(),
{
    &&& step_readable(s, p)
    &&& match (step(s, p), p.next) {
        (Some(ElementView::Array(span)), Some(n)) => readable(span, *n),
        (Some(ElementView::Object(span)), Some(n)) => readable(span, *n),
        _ => true,
    }
}

/// Whether an element is one that the tokenizer reads: no map, list or
/// count.
pub open spec fn is_token(e: ElementView) -> bool {
    !(e is Mapping) && !(e is List) && !(e is Count)
}

proof fn lemma_members_are_tokens(s: Seq<u8>, acc: Seq<MemberView>)
    requires
        forall|i: int| 0 <= i < acc.len() ==> is_token((#[trigger] acc[i]).value),
    ensures
        object_members(s, acc) matches Ok((all, _)) ==> forall|i: int|
            0 <= i < all.len() ==> is_token((#[trigger] all[i]).value),
    decreases s.len(),
{
    match read_one_spec(s) {
        Ok((Some(ElementView::String(raw)), rest)) => match read_one_spec(rest) {
            Ok((Some(v), after)) => {
                lemma_read_one_advances(s);
                lemma_read_one_advances(rest);
                lemma_members_are_tokens(
                    after,
                    acc.push(MemberView { name: unquoted(raw), value: v }),
                );
            },
            _ => {},
        },
        _ => {},
    }
}

proof fn lemma_elements_are_tokens(s: Seq<u8>, acc: Seq<ElementView>)
    requires
        forall|i: int| 0 <= i < acc.len() ==> is_token(#[trigger] acc[i]),
    ensures
        array_elements(s, acc) matches Ok((all, _)) ==> forall|i: int|
            0 <= i < all.len() ==> is_token(#[trigger] all[i]),
    decreases s.len(),
{
    match read_one_spec(s) {
        Ok((Some(v), rest)) => {
            lemma_read_one_advances(s);
            lemma_elements_are_tokens(rest, acc.push(v));
        },
        _ => {},
    }
}

proof fn lemma_last_match_is_member(m: Seq<MemberView>, part: Seq<u8>, n: int)
    requires
        0 <= n <= m.len(),
    ensures
        last_match(m, part, n) matches Some(v) ==> exists|i: int|
            0 <= i < n && (#[trigger] m[i]).value == v,
    decreases n,
{
    if n > 0 && !wild_matches(part, m[n - 1].name) {
        lemma_last_match_is_member(m, part, n - 1);
    }
}

/// What a step designates is a span that the tokenizer read.
proof fn lemma_step_is_token(s: Seq<u8>, p: PathView)
    ensures
        step(s, p) matches Some(v) ==> is_token(v),
{
    let i = first_opener(s, 0);
    if i < s.len() {
        let body = s.subrange(i + 1, s.len() as int);
        if s[i] == OPEN_BRACE {
            lemma_members_are_tokens(body, Seq::empty());
            match object_members(body, Seq::empty()) {
                Ok((all, _)) => {
                    lemma_last_match_is_member(all, p.part, all.len() as int);
                },
                Err(_) => {},
            }
        } else {
            lemma_elements_are_tokens(body, Seq::empty());
        }
    }
}

/// One level of a lookup, said over members and elements: a plain segment
/// designates in a readable container what `step` says, after the
/// continuation.
proof fn lemma_one_step(s: Seq<u8>, p: PathView)
    requires
        p.ok,
        p.selectors is None,
        !p.query.on,
        valid_utf8(p.part),
        step_readable(s, p),
    ensures
        match step(s, p) {
            Some(v) => match follow_spec(v, p.next) {
                Ok(r) => bytes_get_spec(s, p) matches Ok((found, _)) && found == r,
                Err(e) => bytes_get_spec(s, p) == Err::<(Option<ElementView>, Seq<u8>), Error>(e),
            },
            None => bytes_get_spec(s, p) matches Ok((None, _)),
        },
{
    let i = first_opener(s, 0);
    lemma_first_opener_bounds(s, 0);
    if s.len() > 0 && i < s.len() {
        let sub = s.subrange(i, s.len() as int);
        let body = s.subrange(i + 1, s.len() as int);
        assert(sub.subrange(1, sub.len() as int) =~= body);
        assert(sub[0] == s[i]);
        if s[i] == OPEN_BRACE {
            law_object_lookup(sub, p);
        } else {
            let k = segment_index(p.part)->Some_0;
            lemma_array_nth_elements(body, Seq::empty(), k);
        }
    }
}

/// A chain of keys and indices, looked up in a document whose containers
/// along the chain can be read, designates what the chain designates level
/// by level. So a chain that leads to a leaf yields that leaf, as the span
/// of the document that holds it; and a chain with a key that the object
/// reached does not have, or an index that the array reached does not have,
/// yields nothing and is no error.
pub proof fn law_chain_lookup(s: Seq<u8>, p: PathView)
    requires
        plain_chain(p),
        readable(s, p),
    ensures
        bytes_get_spec(s, p) matches Ok((found, _)) && found == descend(s, p),
    decreases p.weight(),
{
    lemma_one_step(s, p);
    lemma_step_is_token(s, p);
    match (step(s, p), p.next) {
        (Some(v), Some(n)) => {
            assert(follow_spec(v, p.next) == element_get_spec(v, *n));
            match v {
                ElementView::Array(span) => {
                    law_chain_lookup(span, *n);
                },
                ElementView::Object(span) => {
                    law_chain_lookup(span, *n);
                },
                _ => {
                    assert(element_get_spec(v, *n) == Ok::<Option<ElementView>, Error>(None));
                },
            }
        },
        (Some(v), None) => {
            assert(follow_spec(v, p.next) == Ok::<Option<ElementView>, Error>(Some(v)));
        },
        (None, _) => {},
    }
}

/// Looking up an expression that denotes a chain of keys and indices, in a
/// document whose containers along the chain can be read, gives the value
/// of what the chain designates level by level, and nothing, without an
/// error, where a key or an index along the chain is not there.
pub proof fn law_get_chain(document: Seq<u8>, expression: Seq<u8>)
    requires
        plain_chain(parse_spec(expression)),
        readable(document, parse_spec(expression)),
    ensures
        get_spec(document, expression) == (match descend(document, parse_spec(expression)) {
            Some(v) => match value_of(v) {
                Ok(x) => Ok::<Option<ValueView>, Error>(Some(x)),
                Err(e) => Err(e),
            },
            None => Ok(None),
        }),
{
    law_chain_lookup(document, parse_spec(expression));
}

/// What a scan of the members of an object has read when it ends.
pub struct MembersRead {
    /// The members read, in their order.
    pub members: Seq<MemberView>,
    /// The error that ended the scan, if one did.
    pub error: Option<Error>,
    /// What remains after the bracket that closes the object; nothing where
    /// an error ended the scan.
    pub rest: Seq<u8>,
}

/// The members of an object that can be read, reading from the front of `s`
/// and after those in `acc`, up to the bracket that closes the object or to
/// the first member that cannot be read. Nothing after that member is read.
pub open spec fn members_read(s: Seq<u8>, acc: Seq<MemberView>) -> MembersRead
    decreases s.len(),
{
    match read_one_spec(s) {
        Err(e) => MembersRead { members: acc, error: Some(e), rest: Seq::empty() },
        Ok((None, rest)) => MembersRead { members: acc, error: None, rest },
        Ok((Some(ElementView::String(raw)), rest)) => match read_one_spec(rest) {
            Err(e) => MembersRead { members: acc, error: Some(e), rest: Seq::empty() },
            Ok((None, after)) => MembersRead { members: acc, error: None, rest: after },
            Ok((Some(v), after)) => {
                proof {
                    lemma_read_one_advances(s);
                    lemma_read_one_advances(rest);
                }
                members_read(after, acc.push(MemberView { name: unquoted(raw), value: v }))
            },
        },
        Ok((Some(_), _)) => MembersRead {
            members: acc,
            error: Some(Error::ObjectKey),
            rest: Seq::empty(),
        },
    }
}

proof fn lemma_object_scan_read(s: Seq<u8>, part: Seq<u8>, acc: Seq<MemberView>)
    ensures
        object_scan(s, part, last_match(acc, part, acc.len() as int)) == ({
            let read = members_read(s, acc);
            let found = last_match(read.members, part, read.members.len() as int);
            match read.error {
                None => Ok((found, read.rest)),
                Some(e) => stopped(found, e),
            }
        }),
    decreases s.len(),
{
    match read_one_spec(s) {
        Ok((Some(ElementView::String(raw)), rest)) => match read_one_spec(rest) {
            Ok((Some(v), after)) => {
                lemma_read_one_advances(s);
                lemma_read_one_advances(rest);
                let next = acc.push(MemberView { name: unquoted(raw), value: v });
                assert(next.drop_last() =~= acc);
                lemma_last_match_prefix(acc, next, part, acc.len() as int);
                lemma_object_scan_read(after, part, next);
            },
            _ => {},
        },
        _ => {},
    }
}

/// What a key designates in an object depends on the members that can be
/// read before the object closes or a member cannot be read, and on
/// nothing else: it is the value of the last of them whose key matches. A
/// member that cannot be read is a hard error only where none of those
/// before it matches. What stands after such a member does not change the
/// result.
pub proof fn law_object_scan_reads_members(s: Seq<u8>, part: Seq<u8>)
    ensures
        object_scan(s, part, None) == ({
            let read = members_read(s, Seq::empty());
            let found = last_match(read.members, part, read.members.len() as int);
            match read.error {
                None => Ok((found, read.rest)),
                Some(e) => stopped(found, e),
            }
        }),
{
    lemma_object_scan_read(s, part, Seq::empty());
}

/// The lookup that serves a filter yields a span of the document or
/// nothing: never a map, a list or a count.
pub proof fn law_filter_lookup_yields_spans(e: ElementView, p: PathView)
    ensures
        element_ref_get_spec(e, p) matches Ok(Some(r)) ==> is_token(r),
{
}

} // verus!
