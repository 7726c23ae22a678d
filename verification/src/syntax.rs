//! The grammar of path expressions: where a segment, a group, a slot or a
//! filter ends, and the chain of segments that an expression denotes.

use crate::bytes::{
    byte_is_closer, byte_is_opener, compound_end, copied, is_closer, is_opener,
    lemma_compound_end_bounds, lemma_string_end_bounds, scan_compound, scan_string, string_end,
    BACKSLASH, CLOSE_PAREN, COLON, COMMA, DOT, HASH, OPEN_BRACKET, OPEN_PAREN, QUOTE, SPACE,
};
use crate::number::{decimal_text, index_name};
use crate::path::{
    absent_query, selector_views, selectors_weight, Operator, Path, PathView, Query, QueryView,
    SubSelector, SubSelectorView,
};
use vstd::prelude::*;

verus! {

/// The first index at or after `i` that holds a dot, or the length of the
/// input. A backslash hides the byte that follows it.
pub open spec fn key_end(s: Seq<u8>, i: int) -> int
    decreases s.len() - i,
{
    if i < 0 || i >= s.len() {
        s.len() as int
    } else if s[i] == DOT {
        i
    } else if s[i] == BACKSLASH && i + 1 < s.len() {
        key_end(s, i + 2)
    } else {
        key_end(s, i + 1)
    }
}

/// The index just past the parenthesis that closes a filter, scanning its
/// inside at `i` with `depth` parentheses open, or `None` when the input ends
/// first. Parentheses inside quoted strings do not count, and a backslash
/// hides the byte that follows it.
pub open spec fn paren_end(s: Seq<u8>, i: int, depth: nat) -> Option<int>
    decreases s.len() - i,
{
    if i < 0 || i >= s.len() {
        None
    } else if s[i] == QUOTE {
        match string_end(s, i + 1) {
            Some(e) => if i < e <= s.len() {
                paren_end(s, e, depth)
            } else {
                None
            },
            None => None,
        }
    } else if s[i] == BACKSLASH {
        if i + 1 < s.len() {
            paren_end(s, i + 2, depth)
        } else {
            None
        }
    } else if s[i] == OPEN_PAREN {
        paren_end(s, i + 1, depth + 1)
    } else if s[i] == CLOSE_PAREN {
        if depth <= 1 {
            Some(i + 1)
        } else {
            paren_end(s, i + 1, (depth - 1) as nat)
        }
    } else {
        paren_end(s, i + 1, depth)
    }
}

/// A byte that opens a nested group or filter.
pub open spec fn opens_nesting(b: u8) -> bool {
    is_opener(b) || b == OPEN_PAREN
}

/// A byte that closes a nested group or filter.
pub open spec fn closes_nesting(b: u8) -> bool {
    is_closer(b) || b == CLOSE_PAREN
}

/// The first index at or after `i` that holds the separator `sep` outside
/// every nested group, filter and quoted string, or the length of the input.
/// `depth` counts the brackets open at `i`. A backslash hides the byte that
/// follows it.
pub open spec fn split_point(s: Seq<u8>, i: int, depth: nat, sep: u8) -> int
    decreases s.len() - i,
{
    if i < 0 || i >= s.len() {
        s.len() as int
    } else if s[i] == BACKSLASH {
        if i + 1 < s.len() {
            split_point(s, i + 2, depth, sep)
        } else {
            s.len() as int
        }
    } else if s[i] == QUOTE {
        match string_end(s, i + 1) {
            Some(e) => if i < e <= s.len() {
                split_point(s, e, depth, sep)
            } else {
                s.len() as int
            },
            None => s.len() as int,
        }
    } else if opens_nesting(s[i]) {
        split_point(s, i + 1, depth + 1, sep)
    } else if closes_nesting(s[i]) {
        split_point(
            s,
            i + 1,
            if depth > 0 {
                (depth - 1) as nat
            } else {
                0
            },
            sep,
        )
    } else if s[i] == sep && depth == 0 {
        i
    } else {
        split_point(s, i + 1, depth, sep)
    }
}

/// A byte with which a comparison operator begins.
pub open spec fn starts_operator(b: u8) -> bool {
    b == 0x3d || b == 0x21 || b == 0x3c || b == 0x3e || b == 0x25
}

/// The first index at or after `i` at which an operator begins, or the
/// length of the input. A backslash hides the byte that follows it.
pub open spec fn operator_start(s: Seq<u8>, i: int) -> int
    decreases s.len() - i,
{
    if i < 0 || i >= s.len() {
        s.len() as int
    } else if starts_operator(s[i]) {
        i
    } else if s[i] == BACKSLASH && i + 1 < s.len() {
        operator_start(s, i + 2)
    } else {
        operator_start(s, i + 1)
    }
}

/// The operator written at index `k`, with its length: `==` or `=`, `!=`,
/// `!%`, `<=`, `<`, `>=`, `>`, `%`. A `!` followed by anything else is none.
pub open spec fn operator_at(s: Seq<u8>, k: int) -> Option<(Operator, int)> {
    let b = s[k];
    let follows_eq = k + 1 < s.len() && s[k + 1] == 0x3d;
    if b == 0x3d {
        Some((Operator::Equal, if follows_eq { 2int } else { 1int }))
    } else if b == 0x3c {
        if follows_eq {
            Some((Operator::LessEqual, 2int))
        } else {
            Some((Operator::Less, 1int))
        }
    } else if b == 0x3e {
        if follows_eq {
            Some((Operator::GreaterEqual, 2int))
        } else {
            Some((Operator::Greater, 1int))
        }
    } else if b == 0x25 {
        Some((Operator::Like, 1int))
    } else if b == 0x21 {
        if follows_eq {
            Some((Operator::NotEqual, 2int))
        } else if k + 1 < s.len() && s[k + 1] == 0x25 {
            Some((Operator::NotLike, 2int))
        } else {
            None
        }
    } else {
        None
    }
}

/// The first index at or after `i` that holds no space, or the length of the
/// input.
pub open spec fn spaces_end(s: Seq<u8>, i: int) -> int
    decreases s.len() - i,
{
    if i < 0 || i >= s.len() {
        s.len() as int
    } else if s[i] != SPACE {
        i
    } else {
        spaces_end(s, i + 1)
    }
}

/// The least index `j` between `lo` and `hi` such that only spaces stand
/// from `j` up to `hi`.
pub open spec fn spaces_start(s: Seq<u8>, lo: int, hi: int) -> int
    decreases hi - lo,
{
    if hi <= lo || hi > s.len() || lo < 0 {
        lo
    } else if s[hi - 1] != SPACE {
        hi
    } else {
        spaces_start(s, lo, hi - 1)
    }
}

/// The text without the spaces at its two ends.
pub open spec fn trimmed(s: Seq<u8>) -> Seq<u8> {
    let a = spaces_end(s, 0);
    s.subrange(a, spaces_start(s, a, s.len() as int))
}

/// The filter written between the parentheses: an optional path, an
/// operator and an operand, the path and the operand without the spaces
/// around them; or a path alone. `None` when the operator is malformed.
pub open spec fn query_of(c: Seq<u8>, all: bool) -> Option<QueryView> {
    let k = operator_start(c, 0);
    if k >= c.len() {
        Some(
            QueryView {
                on: true,
                all,
                path: trimmed(c),
                op: Operator::Exists,
                value: Seq::empty(),
            },
        )
    } else {
        match operator_at(c, k) {
            Some((op, n)) => Some(
                QueryView {
                    on: true,
                    all,
                    path: trimmed(c.subrange(0, k)),
                    op,
                    value: trimmed(c.subrange(k + n, c.len() as int)),
                },
            ),
            None => None,
        }
    }
}

/// The slot that the item at position `k` of a group denotes. In a group
/// with square brackets the item is the slot's path and the slot is named by
/// its position, in decimal. In a group with braces the name stands before
/// the first colon and the path after it; an item without a colon is both
/// the name and the path.
pub open spec fn selector_of(item: Seq<u8>, array: bool, k: nat) -> SubSelectorView {
    if array {
        SubSelectorView { name: decimal_text(k), path: item }
    } else {
        let k = split_point(item, 0, 0, COLON);
        if k < item.len() {
            SubSelectorView {
                name: item.subrange(0, k),
                path: item.subrange(k + 1, item.len() as int),
            }
        } else {
            SubSelectorView { name: item, path: item }
        }
    }
}

/// The slots written in the inside `c` of a group from index `i` on, the
/// first of them standing at position `k`: one for each item, the items
/// being separated by commas.
pub open spec fn selectors_from(c: Seq<u8>, i: int, array: bool, k: nat) -> Seq<SubSelectorView>
    decreases c.len() - i,
{
    if i < 0 || i > c.len() {
        Seq::empty()
    } else {
        let e = split_point(c, i, 0, COMMA);
        let first = seq![selector_of(c.subrange(i, e), array, k)];
        if i <= e < c.len() {
            first + selectors_from(c, e + 1, array, k + 1)
        } else {
            first
        }
    }
}

/// What the first segment of an expression denotes, and where it ends.
pub struct SegmentView {
    pub end: int,
    pub arrch: bool,
    pub arrsel: bool,
    pub selectors: Option<Seq<SubSelectorView>>,
    pub query: QueryView,
}

/// The first segment of a non-empty expression. An expression that starts
/// with a bracket starts with a group, which runs to the matching bracket.
/// One that starts with `#(` starts with a filter, which runs to the matching
/// parenthesis and one `#` after it, if there is one. Any other runs to its
/// first dot, and is the count marker if it is a lone `#`. `None` when the
/// group or the filter is not closed or the filter's operator is malformed.
pub open spec fn segment_of(s: Seq<u8>) -> Option<SegmentView> {
    if is_opener(s[0]) {
        match compound_end(s, 1, 1) {
            Some(e) => Some(
                SegmentView {
                    end: e,
                    arrch: false,
                    arrsel: s[0] == OPEN_BRACKET,
                    selectors: Some(
                        selectors_from(s.subrange(1, e - 1), 0, s[0] == OPEN_BRACKET, 0),
                    ),
                    query: absent_query(),
                },
            ),
            None => None,
        }
    } else if s[0] == HASH && s.len() >= 2 && s[1] == OPEN_PAREN {
        match paren_end(s, 2, 1) {
            Some(e) => {
                let all = e < s.len() && s[e] == HASH;
                match query_of(s.subrange(2, e - 1), all) {
                    Some(q) => Some(
                        SegmentView {
                            end: if all {
                                e + 1
                            } else {
                                e
                            },
                            arrch: false,
                            arrsel: false,
                            selectors: None,
                            query: q,
                        },
                    ),
                    None => None,
                }
            },
            None => None,
        }
    } else {
        let e = key_end(s, 0);
        Some(
            SegmentView {
                end: e,
                arrch: e == 1 && s[0] == HASH,
                arrsel: false,
                selectors: None,
                query: absent_query(),
            },
        )
    }
}

/// The path that stands for an expression, or for the rest of one, that is
/// not valid.
pub open spec fn invalid_path(s: Seq<u8>) -> PathView {
    PathView {
        ok: false,
        part: s,
        arrch: false,
        arrsel: false,
        selectors: None,
        query: absent_query(),
        next: None,
    }
}

/// The chain of segments that an expression denotes. Segments are separated
/// by dots. The chain is valid up to the first segment that is empty, not
/// closed, or followed by anything but a dot; that segment is marked invalid
/// and ends the chain.
pub open spec fn parse_spec(s: Seq<u8>) -> PathView
    decreases s.len(),
{
    if s.len() == 0 {
        invalid_path(s)
    } else {
        match segment_of(s) {
            Some(seg) => {
                if seg.end == s.len() {
                    PathView {
                        ok: true,
                        part: s,
                        arrch: seg.arrch,
                        arrsel: seg.arrsel,
                        selectors: seg.selectors,
                        query: seg.query,
                        next: None,
                    }
                } else if 0 <= seg.end < s.len() && s[seg.end] == DOT {
                    PathView {
                        ok: true,
                        part: s.subrange(0, seg.end),
                        arrch: seg.arrch,
                        arrsel: seg.arrsel,
                        selectors: seg.selectors,
                        query: seg.query,
                        next: Some(Box::new(parse_spec(s.subrange(seg.end + 1, s.len() as int)))),
                    }
                } else {
                    invalid_path(s)
                }
            },
            None => invalid_path(s),
        }
    }
}

/// A key ends within the input, on a dot or at the end.
pub proof fn lemma_key_end_bounds(s: Seq<u8>, i: int)
    requires
        0 <= i <= s.len(),
    ensures
        i <= key_end(s, i) <= s.len(),
        key_end(s, i) < s.len() ==> s[key_end(s, i)] == DOT,
    decreases s.len() - i,
{
    if i < s.len() && s[i] != DOT {
        if s[i] == BACKSLASH && i + 1 < s.len() {
            lemma_key_end_bounds(s, i + 2);
        } else {
            lemma_key_end_bounds(s, i + 1);
        }
    }
}

/// A filter ends after the index it is scanned from and within the input.
pub proof fn lemma_paren_end_bounds(s: Seq<u8>, i: int, depth: nat)
    requires
        0 <= i,
    ensures
        paren_end(s, i, depth) matches Some(e) ==> i < e <= s.len(),
    decreases s.len() - i,
{
    if i < s.len() {
        if s[i] == QUOTE {
            lemma_string_end_bounds(s, i + 1);
            match string_end(s, i + 1) {
                Some(e) => {
                    lemma_paren_end_bounds(s, e, depth);
                },
                None => {},
            }
        } else if s[i] == BACKSLASH {
            if i + 1 < s.len() {
                lemma_paren_end_bounds(s, i + 2, depth);
            }
        } else if s[i] == OPEN_PAREN {
            lemma_paren_end_bounds(s, i + 1, depth + 1);
        } else if s[i] == CLOSE_PAREN {
            if depth > 1 {
                lemma_paren_end_bounds(s, i + 1, (depth - 1) as nat);
            }
        } else {
            lemma_paren_end_bounds(s, i + 1, depth);
        }
    }
}

/// A split point lies at or after the index it is looked for from and
/// within the input.
pub proof fn lemma_split_point_bounds(s: Seq<u8>, i: int, depth: nat, sep: u8)
    requires
        0 <= i <= s.len(),
    ensures
        i <= split_point(s, i, depth, sep) <= s.len(),
    decreases s.len() - i,
{
    if i < s.len() {
        if s[i] == BACKSLASH {
            if i + 1 < s.len() {
                lemma_split_point_bounds(s, i + 2, depth, sep);
            }
        } else if s[i] == QUOTE {
            lemma_string_end_bounds(s, i + 1);
            match string_end(s, i + 1) {
                Some(e) => {
                    lemma_split_point_bounds(s, e, depth, sep);
                },
                None => {},
            }
        } else if opens_nesting(s[i]) {
            lemma_split_point_bounds(s, i + 1, depth + 1, sep);
        } else if closes_nesting(s[i]) {
            lemma_split_point_bounds(
                s,
                i + 1,
                if depth > 0 {
                    (depth - 1) as nat
                } else {
                    0
                },
                sep,
            );
        } else if s[i] == sep && depth == 0 {
        } else {
            lemma_split_point_bounds(s, i + 1, depth, sep);
        }
    }
}

/// An operator starts within the input, on a byte that starts one.
pub proof fn lemma_operator_start_bounds(s: Seq<u8>, i: int)
    requires
        0 <= i <= s.len(),
    ensures
        i <= operator_start(s, i) <= s.len(),
        operator_start(s, i) < s.len() ==> starts_operator(s[operator_start(s, i)]),
    decreases s.len() - i,
{
    if i < s.len() && !starts_operator(s[i]) {
        if s[i] == BACKSLASH && i + 1 < s.len() {
            lemma_operator_start_bounds(s, i + 2);
        } else {
            lemma_operator_start_bounds(s, i + 1);
        }
    }
}

/// Runs of spaces are skipped within the bounds given.
pub proof fn lemma_spaces_bounds(s: Seq<u8>, lo: int, hi: int)
    requires
        0 <= lo <= hi <= s.len(),
    ensures
        lo <= spaces_end(s, lo) <= s.len(),
        lo <= spaces_start(s, lo, hi) <= hi,
    decreases s.len() - lo, hi - lo,
{
    if lo < s.len() && s[lo] == SPACE {
        lemma_spaces_bounds(s, lo + 1, s.len() as int);
    }
    if lo < hi && s[hi - 1] == SPACE {
        lemma_spaces_bounds(s, lo, hi - 1);
    }
}

/// Trimming never lengthens a text.
pub proof fn lemma_trimmed_len(s: Seq<u8>)
    ensures
        trimmed(s).len() <= s.len(),
{
    lemma_spaces_bounds(s, 0, s.len() as int);
    lemma_spaces_bounds(s, spaces_end(s, 0), s.len() as int);
}

/// The weight of two runs of slots put together is the sum of their
/// weights.
pub proof fn lemma_selectors_weight_concat(a: Seq<SubSelectorView>, b: Seq<SubSelectorView>)
    ensures
        selectors_weight(a + b) == selectors_weight(a) + selectors_weight(b),
    decreases b.len(),
{
    if b.len() == 0 {
        assert(a + b =~= a);
    } else {
        lemma_selectors_weight_concat(a, b.drop_last());
        assert((a + b).drop_last() =~= a + b.drop_last());
        assert((a + b).last() == b.last());
    }
}

/// The path of a slot is no longer than the item that it was written as.
pub proof fn lemma_selector_of_len(item: Seq<u8>, array: bool, k: nat)
    ensures
        selector_of(item, array, k).path.len() <= item.len(),
{
    lemma_split_point_bounds(item, 0, 0, COLON);
}

/// The slots of a group weigh no more than the text of its inside and one.
pub proof fn lemma_selectors_from_weight(c: Seq<u8>, i: int, array: bool, k: nat)
    requires
        0 <= i <= c.len(),
    ensures
        selectors_weight(selectors_from(c, i, array, k)) <= c.len() - i + 1,
        selectors_from(c, i, array, k).len() >= 1,
    decreases c.len() - i,
{
    let e = split_point(c, i, 0, COMMA);
    lemma_split_point_bounds(c, i, 0, COMMA);
    let first = seq![selector_of(c.subrange(i, e), array, k)];
    lemma_selector_of_len(c.subrange(i, e), array, k);
    assert(first.drop_last() =~= Seq::<SubSelectorView>::empty());
    assert(selectors_weight(Seq::<SubSelectorView>::empty()) == 0);
    assert(selectors_weight(first) == first.last().path.len() + 1);
    if e < c.len() {
        lemma_selectors_from_weight(c, e + 1, array, k + 1);
        lemma_selectors_weight_concat(first, selectors_from(c, e + 1, array, k + 1));
    }
}

/// What a segment carries weighs no more than its text is long.
pub proof fn lemma_segment_of_bounds(s: Seq<u8>)
    requires
        s.len() > 0,
    ensures
        segment_of(s) matches Some(seg) ==> 0 <= seg.end <= s.len() && seg.query.weight() + (
        match seg.selectors {
            Some(sels) => selectors_weight(sels),
            None => 0,
        }) <= seg.end,
{
    if is_opener(s[0]) {
        lemma_compound_end_bounds(s, 1, 1);
        match compound_end(s, 1, 1) {
            Some(e) => {
                lemma_selectors_from_weight(s.subrange(1, e - 1), 0, s[0] == OPEN_BRACKET, 0);
            },
            None => {},
        }
    } else if s[0] == HASH && s.len() >= 2 && s[1] == OPEN_PAREN {
        lemma_paren_end_bounds(s, 2, 1);
        match paren_end(s, 2, 1) {
            Some(e) => {
                let c = s.subrange(2, e - 1);
                let k = operator_start(c, 0);
                lemma_operator_start_bounds(c, 0);
                lemma_trimmed_len(c);
                lemma_trimmed_len(c.subrange(0, k));
            },
            None => {},
        }
    } else {
        lemma_key_end_bounds(s, 0);
    }
}

/// A path weighs no more than the expression that denotes it is long, and
/// one.
pub proof fn lemma_parse_weight(s: Seq<u8>)
    ensures
        parse_spec(s).weight() <= s.len() + 1,
    decreases s.len(),
{
    if s.len() > 0 {
        lemma_segment_of_bounds(s);
        match segment_of(s) {
            Some(seg) => {
                if 0 <= seg.end < s.len() && s[seg.end] == DOT {
                    lemma_parse_weight(s.subrange(seg.end + 1, s.len() as int));
                }
            },
            None => {},
        }
    }
}

/// Whether an expression is a single key written plainly: it is not empty,
/// holds no dot and no backslash, and starts with neither a bracket nor
/// `#`.
pub open spec fn is_plain_key(e: Seq<u8>) -> bool {
    &&& e.len() > 0
    &&& !is_opener(e[0])
    &&& e[0] != HASH
    &&& forall|k: int| 0 <= k < e.len() ==> (#[trigger] e[k]) != DOT && e[k] != BACKSLASH
}

proof fn lemma_key_end_without_dot(e: Seq<u8>, i: int)
    requires
        0 <= i <= e.len(),
        forall|k: int| 0 <= k < e.len() ==> (#[trigger] e[k]) != DOT && e[k] != BACKSLASH,
    ensures
        key_end(e, i) == e.len(),
    decreases e.len() - i,
{
    if i < e.len() {
        assert(e[i] != DOT && e[i] != BACKSLASH);
        lemma_key_end_without_dot(e, i + 1);
    }
}

/// A plain key denotes a path of one valid segment, whose text is the key.
pub proof fn lemma_parse_plain_key(e: Seq<u8>)
    requires
        is_plain_key(e),
    ensures
        parse_spec(e) == (PathView {
            ok: true,
            part: e,
            arrch: false,
            arrsel: false,
            selectors: None,
            query: absent_query(),
            next: None,
        }),
{
    lemma_key_end_without_dot(e, 0);
}

/// Finds the end of the key that is scanned at `start`.
fn scan_key(s: &[u8], start: usize) -> (r: usize)
    requires
        start <= s.len(),
    ensures
        r == key_end(s@, start as int),
        start <= r <= s.len(),
{
    let n = s.len();
    let mut i: usize = start;
    while i < n
        invariant
            start <= i <= n,
            n == s.len(),
            key_end(s@, start as int) == key_end(s@, i as int),
        decreases n - i,
    {
        let b = s[i];
        if b == DOT {
            return i;
        }
        if b == BACKSLASH && i + 1 < n {
            i += 2;
        } else {
            i += 1;
        }
    }
    i
}

/// Finds the end of the filter whose inside starts at `start`.
fn scan_paren(s: &[u8], start: usize) -> (r: Option<usize>)
    ensures
        match paren_end(s@, start as int, 1) {
            Some(e) => r == Some(e as usize) && start < e <= s.len(),
            None => r.is_none(),
        },
{
    let n = s.len();
    let mut i: usize = start;
    let mut nested: usize = 0;
    while i < n
        invariant
            start <= i,
            n == s.len(),
            nested <= i - start,
            paren_end(s@, start as int, 1) == paren_end(s@, i as int, (nested + 1) as nat),
        decreases n - i,
    {
        let b = s[i];
        if b == QUOTE {
            proof {
                lemma_string_end_bounds(s@, i + 1);
            }
            match scan_string(s, i + 1) {
                Some(e) => {
                    i = e;
                },
                None => {
                    return None;
                },
            }
        } else if b == BACKSLASH {
            if i + 1 >= n {
                return None;
            }
            i += 2;
        } else if b == OPEN_PAREN {
            nested += 1;
            i += 1;
        } else if b == CLOSE_PAREN {
            if nested == 0 {
                return Some(i + 1);
            }
            nested -= 1;
            i += 1;
        } else {
            i += 1;
        }
    }
    None
}

fn byte_opens_nesting(b: u8) -> (r: bool)
    ensures
        r == opens_nesting(b),
{
    byte_is_opener(b) || b == OPEN_PAREN
}

fn byte_closes_nesting(b: u8) -> (r: bool)
    ensures
        r == closes_nesting(b),
{
    byte_is_closer(b) || b == CLOSE_PAREN
}

/// Finds the next separator outside every nesting.
fn scan_split(s: &[u8], start: usize, sep: u8) -> (r: usize)
    requires
        start <= s.len(),
    ensures
        r == split_point(s@, start as int, 0, sep),
        start <= r <= s.len(),
{
    let n = s.len();
    let mut i: usize = start;
    let mut depth: usize = 0;
    while i < n
        invariant
            start <= i <= n,
            n == s.len(),
            depth <= i - start,
            split_point(s@, start as int, 0, sep) == split_point(s@, i as int, depth as nat, sep),
        decreases n - i,
    {
        let b = s[i];
        if b == BACKSLASH {
            if i + 1 >= n {
                return n;
            }
            i += 2;
        } else if b == QUOTE {
            proof {
                lemma_string_end_bounds(s@, i + 1);
            }
            match scan_string(s, i + 1) {
                Some(e) => {
                    i = e;
                },
                None => {
                    return n;
                },
            }
        } else if byte_opens_nesting(b) {
            depth += 1;
            i += 1;
        } else if byte_closes_nesting(b) {
            if depth > 0 {
                depth -= 1;
            }
            i += 1;
        } else if b == sep && depth == 0 {
            return i;
        } else {
            i += 1;
        }
    }
    i
}

fn byte_starts_operator(b: u8) -> (r: bool)
    ensures
        r == starts_operator(b),
{
    b == 0x3d || b == 0x21 || b == 0x3c || b == 0x3e || b == 0x25
}

/// Finds where the operator of a filter begins.
fn scan_operator(s: &[u8], start: usize) -> (r: usize)
    requires
        start <= s.len(),
    ensures
        r == operator_start(s@, start as int),
        start <= r <= s.len(),
        r < s.len() ==> starts_operator(s@[r as int]),
{
    let n = s.len();
    let mut i: usize = start;
    while i < n
        invariant
            start <= i <= n,
            n == s.len(),
            operator_start(s@, start as int) == operator_start(s@, i as int),
        decreases n - i,
    {
        let b = s[i];
        if byte_starts_operator(b) {
            return i;
        }
        if b == BACKSLASH && i + 1 < n {
            i += 2;
        } else {
            i += 1;
        }
    }
    i
}

/// Reads the operator written at `k`.
fn read_operator(s: &[u8], k: usize) -> (r: Option<(Operator, usize)>)
    requires
        k < s.len(),
    ensures
        match operator_at(s@, k as int) {
            Some((op, n)) => r == Some((op, n as usize)) && 1 <= n <= 2 && k + n <= s.len(),
            None => r.is_none(),
        },
{
    let b = s[k];
    let follows_eq = k + 1 < s.len() && s[k + 1] == 0x3d;
    if b == 0x3d {
        Some((Operator::Equal, if follows_eq { 2 } else { 1 }))
    } else if b == 0x3c {
        if follows_eq {
            Some((Operator::LessEqual, 2))
        } else {
            Some((Operator::Less, 1))
        }
    } else if b == 0x3e {
        if follows_eq {
            Some((Operator::GreaterEqual, 2))
        } else {
            Some((Operator::Greater, 1))
        }
    } else if b == 0x25 {
        Some((Operator::Like, 1))
    } else if b == 0x21 {
        if follows_eq {
            Some((Operator::NotEqual, 2))
        } else if k + 1 < s.len() && s[k + 1] == 0x25 {
            Some((Operator::NotLike, 2))
        } else {
            None
        }
    } else {
        None
    }
}

/// Takes the spaces off the two ends of a text.
fn trim<'a>(s: &'a [u8]) -> (r: &'a [u8])
    ensures
        r@ == trimmed(s@),
{
    let n = s.len();
    let mut a: usize = 0;
    while a < n && s[a] == SPACE
        invariant
            0 <= a <= n,
            n == s.len(),
            spaces_end(s@, 0) == spaces_end(s@, a as int),
        decreases n - a,
    {
        a += 1;
    }
    let mut b: usize = n;
    while b > a && s[b - 1] == SPACE
        invariant
            a <= b <= n,
            n == s.len(),
            spaces_start(s@, a as int, n as int) == spaces_start(s@, a as int, b as int),
        decreases b - a,
    {
        b -= 1;
    }
    &s[a..b]
}

/// Reads the filter written between the parentheses.
fn parse_query<'a>(c: &'a [u8], all: bool) -> (r: Option<Query<'a>>)
    ensures
        match query_of(c@, all) {
            Some(q) => r matches Some(x) && x@ == q,
            None => r.is_none(),
        },
{
    let n = c.len();
    let k = scan_operator(c, 0);
    if k >= n {
        assert(c@.subrange(0, 0) =~= Seq::<u8>::empty());
        return Some(Query { on: true, all, path: trim(c), op: Operator::Exists, value: &c[0..0] });
    }
    match read_operator(c, k) {
        Some((op, len)) => Some(
            Query { on: true, all, path: trim(&c[0..k]), op, value: trim(&c[k + len..n]) },
        ),
        None => None,
    }
}

/// Reads the item at position `k` of a group as a slot.
fn parse_selector<'a>(item: &'a [u8], array: bool, k: usize) -> (r: SubSelector<'a>)
    ensures
        r@ == selector_of(item@, array, k as nat),
{
    if array {
        return SubSelector { name: index_name(k), path: item };
    }
    let n = scan_split(item, 0, COLON);
    if n < item.len() {
        SubSelector { name: copied(&item[0..n]), path: &item[n + 1..item.len()] }
    } else {
        SubSelector { name: copied(item), path: item }
    }
}

/// Reads the slots written in the inside of a group.
fn parse_selectors<'a>(c: &'a [u8], array: bool) -> (r: Vec<SubSelector<'a>>)
    ensures
        selector_views(r@) == selectors_from(c@, 0, array, 0),
{
    let n = c.len();
    let mut out: Vec<SubSelector<'a>> = Vec::new();
    let mut i: usize = 0;
    loop
        invariant_except_break
            selectors_from(c@, 0, array, 0) == selector_views(out@) + selectors_from(
                c@,
                i as int,
                array,
                out@.len(),
            ),
        invariant
            0 <= i <= n,
            n == c.len(),
        ensures
            selector_views(out@) == selectors_from(c@, 0, array, 0),
        decreases n - i,
    {
        let e = scan_split(c, i, COMMA);
        let sel = parse_selector(&c[i..e], array, out.len());
        let ghost before = selector_views(out@);
        let ghost added = sel@;
        let ghost k = out@.len();
        out.push(sel);
        proof {
            assert(selector_views(out@) =~= before + seq![added]);
        }
        if e >= n {
            proof {
                assert(before + seq![added] =~= selector_views(out@));
            }
            break;
        }
        proof {
            assert(before + (seq![added] + selectors_from(c@, e + 1, array, k + 1))
                =~= selector_views(out@) + selectors_from(c@, e + 1, array, k + 1));
        }
        i = e + 1;
    }
    out
}

/// What the first segment of an expression holds, and where it ends.
pub struct Segment<'a> {
    pub end: usize,
    pub arrch: bool,
    pub arrsel: bool,
    pub selectors: Option<Vec<SubSelector<'a>>>,
    pub query: Query<'a>,
}

impl<'a> View for Segment<'a> {
    type V = SegmentView;

    open spec fn view(&self) -> SegmentView {
        SegmentView {
            end: self.end as int,
            arrch: self.arrch,
            arrsel: self.arrsel,
            selectors: match self.selectors {
                Some(v) => Some(selector_views(v@)),
                None => None,
            },
            query: self.query@,
        }
    }
}

/// Reads the first segment of a non-empty expression.
fn parse_segment<'a>(s: &'a [u8]) -> (r: Option<Segment<'a>>)
    requires
        s.len() > 0,
    ensures
        match segment_of(s@) {
            Some(seg) => r matches Some(x) && x@ == seg && x.end <= s.len(),
            None => r.is_none(),
        },
{
    let n = s.len();
    let b = s[0];
    if byte_is_opener(b) {
        proof {
            lemma_compound_end_bounds(s@, 1, 1);
        }
        match scan_compound(s, 1) {
            Some(e) => {
                let array = b == OPEN_BRACKET;
                let selectors = parse_selectors(&s[1..e - 1], array);
                Some(
                    Segment {
                        end: e,
                        arrch: false,
                        arrsel: array,
                        selectors: Some(selectors),
                        query: Query::absent(&s[0..0]),
                    },
                )
            },
            None => None,
        }
    } else if b == HASH && n >= 2 && s[1] == OPEN_PAREN {
        match scan_paren(s, 2) {
            Some(e) => {
                let all = e < n && s[e] == HASH;
                match parse_query(&s[2..e - 1], all) {
                    Some(q) => Some(
                        Segment {
                            end: if all {
                                e + 1
                            } else {
                                e
                            },
                            arrch: false,
                            arrsel: false,
                            selectors: None,
                            query: q,
                        },
                    ),
                    None => None,
                }
            },
            None => None,
        }
    } else {
        let e = scan_key(s, 0);
        Some(
            Segment {
                end: e,
                arrch: e == 1 && b == HASH,
                arrsel: false,
                selectors: None,
                query: Query::absent(&s[0..0]),
            },
        )
    }
}

fn invalid<'a>(s: &'a [u8]) -> (r: Path<'a>)
    ensures
        r@ == invalid_path(s@),
{
    Path {
        ok: false,
        part: s,
        arrch: false,
        arrsel: false,
        selectors: None,
        query: Query::absent(&s[0..0]),
        next: None,
    }
}

/// Parses a path expression. It never fails: an expression that is not
/// valid gives a chain that ends in a segment marked invalid.
pub fn parse_path<'a>(s: &'a [u8]) -> (r: Path<'a>)
    ensures
        r@ == parse_spec(s@),
    decreases s.len(),
{
    let n = s.len();
    if n == 0 {
        return invalid(s);
    }
    match parse_segment(s) {
        Some(seg) => {
            if seg.end == n {
                Path {
                    ok: true,
                    part: s,
                    arrch: seg.arrch,
                    arrsel: seg.arrsel,
                    selectors: seg.selectors,
                    query: seg.query,
                    next: None,
                }
            } else if s[seg.end] == DOT {
                let rest = parse_path(&s[seg.end + 1..n]);
                Path {
                    ok: true,
                    part: &s[0..seg.end],
                    arrch: seg.arrch,
                    arrsel: seg.arrsel,
                    selectors: seg.selectors,
                    query: seg.query,
                    next: Some(Box::new(rest)),
                }
            } else {
                invalid(s)
            }
        },
        None => invalid(s),
    }
}

impl<'a> Path<'a> {
    /// Parses a path expression.
    pub fn parse(expression: &'a [u8]) -> (r: Path<'a>)
        ensures
            r@ == parse_spec(expression@),
    {
        parse_path(expression)
    }
}

} // verus!
