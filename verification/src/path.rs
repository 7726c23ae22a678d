//! Path expressions: the chain of segments that guides a traversal, and the
//! filter that an array segment may carry.

use crate::bytes::QUOTE;
use crate::element::{Element, ElementView};
use crate::number::{decimal_value, parse_decimal};
use crate::wild::{is_match, wild_matches};
use vstd::prelude::*;

verus! {

/// The comparison that a filter makes between a candidate and its operand.
#[derive(Clone, Copy, Debug, PartialEq, Eq, Structural)]
pub enum Operator {
    /// No comparison: the candidate only has to be there.
    Exists,
    /// `==`
    Equal,
    /// `!=`
    NotEqual,
    /// `<`
    Less,
    /// `<=`
    LessEqual,
    /// `>`
    Greater,
    /// `>=`
    GreaterEqual,
    /// `%`: the candidate matches the operand taken as a pattern.
    Like,
    /// `!%`
    NotLike,
}

/// One output slot of a multi-selector group. `name` is the name written
/// for the slot, or the slot's position in decimal where the group gives no
/// names. `path` is a path expression of its own, parsed when the slot is
/// evaluated.
#[derive(Debug, PartialEq, Eq)]
pub struct SubSelector<'a> {
    pub name: Vec<u8>,
    pub path: &'a [u8],
}

/// The filter of an array segment.
#[derive(Clone, Copy, Debug, PartialEq, Eq)]
pub struct Query<'a> {
    /// Whether a filter is present.
    pub on: bool,
    /// Whether every passing element is collected, or only the first.
    pub all: bool,
    /// The path to follow from each candidate before comparing; empty when
    /// the candidate itself is compared.
    pub path: &'a [u8],
    pub op: Operator,
    /// The literal operand.
    pub value: &'a [u8],
}

/// One step of a traversal, with the steps that follow it.
#[derive(Debug, PartialEq, Eq)]
pub struct Path<'a> {
    /// Whether the expression was valid up to and including this segment. A
    /// traversal that reaches an invalid segment finds nothing.
    pub ok: bool,
    /// The text of this segment: a key, an index, a pattern, or the text of a
    /// group or of an array marker.
    pub part: &'a [u8],
    /// Whether the segment is a bare `#`.
    pub arrch: bool,
    /// Whether the group is written with square brackets.
    pub arrsel: bool,
    /// The slots of the group, where the segment is one.
    pub selectors: Option<Vec<SubSelector<'a>>>,
    pub query: Query<'a>,
    /// The segment after this one.
    pub next: Option<Box<Path<'a>>>,
}

/// A slot as mathematics.
pub struct SubSelectorView {
    pub name: Seq<u8>,
    pub path: Seq<u8>,
}

/// A filter as mathematics.
pub struct QueryView {
    pub on: bool,
    pub all: bool,
    pub path: Seq<u8>,
    pub op: Operator,
    pub value: Seq<u8>,
}

/// A path as mathematics.
pub struct PathView {
    pub ok: bool,
    pub part: Seq<u8>,
    pub arrch: bool,
    pub arrsel: bool,
    pub selectors: Option<Seq<SubSelectorView>>,
    pub query: QueryView,
    pub next: Option<Box<PathView>>,
}

impl<'a> View for SubSelector<'a> {
    type V = SubSelectorView;

    open spec fn view(&self) -> SubSelectorView {
        SubSelectorView { name: self.name@, path: self.path@ }
    }
}

impl<'a> View for Query<'a> {
    type V = QueryView;

    open spec fn view(&self) -> QueryView {
        QueryView {
            on: self.on,
            all: self.all,
            path: self.path@,
            op: self.op,
            value: self.value@,
        }
    }
}

/// The views of the slots of a group, one for one.
pub open spec fn selector_views(s: Seq<SubSelector>) -> Seq<SubSelectorView> {
    Seq::new(s.len(), |i: int| s[i]@)
}

impl<'a> View for Path<'a> {
    type V = PathView;

    open spec fn view(&self) -> PathView
        decreases self,
    {
        PathView {
            ok: self.ok,
            part: self.part@,
            arrch: self.arrch,
            arrsel: self.arrsel,
            selectors: match self.selectors {
                Some(v) => Some(selector_views(v@)),
                None => None,
            },
            query: self.query@,
            next: match self.next {
                Some(n) => Some(Box::new((*n)@)),
                None => None,
            },
        }
    }
}

/// The sum, over the slots of a group, of the length of each slot's path and
/// one.
pub open spec fn selectors_weight(s: Seq<SubSelectorView>) -> nat
    decreases s.len(),
{
    if s.len() == 0 {
        0
    } else {
        selectors_weight(s.drop_last()) + s.last().path.len() + 1
    }
}

impl QueryView {
    /// The length of the filter's path and one, for a filter that is present.
    pub open spec fn weight(self) -> nat {
        if self.on {
            self.path.len() + 1
        } else {
            0
        }
    }

    /// Whether the candidate passes the comparison. Without an operator it
    /// does. A string is compared with a quoted operand, byte by byte and
    /// without its quotes; a number with an operand that is a number, by
    /// value; `true`, `false` and `null` with the operand's text, for
    /// equality only. A candidate and an operand of different kinds never
    /// pass, and neither does a composite.
    pub open spec fn accepts(self, e: ElementView) -> bool {
        if self.op == Operator::Exists {
            true
        } else {
            match e {
                ElementView::String(raw) => is_quoted(raw) && is_quoted(self.value)
                    && text_passes(self.op, unquoted(raw), unquoted(self.value)),
                ElementView::Number(raw) => match (decimal_value(raw), decimal_value(self.value)) {
                    (Some(x), Some(y)) => number_passes(self.op, x, y),
                    _ => false,
                },
                ElementView::Boolean(raw) => word_passes(self.op, raw, self.value),
                ElementView::Null(raw) => word_passes(self.op, raw, self.value),
                _ => false,
            }
        }
    }
}

impl PathView {
    /// A measure that goes down from a path to each path that a traversal
    /// takes up on its behalf: the segments after it, the paths of its slots
    /// and the path of its filter.
    pub open spec fn weight(self) -> nat
        decreases self,
    {
        1 + match self.selectors {
            Some(s) => selectors_weight(s),
            None => 0,
        } + self.query.weight() + match self.next {
            Some(n) => n.weight(),
            None => 0,
        }
    }

    /// Whether a continuation follows this segment.
    pub open spec fn more(self) -> bool {
        self.next is Some
    }

    /// Whether a key matches this segment, taken as a pattern.
    pub open spec fn is_match(self, key: Seq<u8>) -> bool {
        wild_matches(self.part, key)
    }
}

/// Whether the text is at least two bytes long and stands between quotes.
pub open spec fn is_quoted(s: Seq<u8>) -> bool {
    s.len() >= 2 && s[0] == QUOTE && s[s.len() - 1] == QUOTE
}

/// The text between the first and the last byte; nothing where the text has
/// fewer than two bytes.
pub open spec fn unquoted(s: Seq<u8>) -> Seq<u8> {
    if s.len() >= 2 {
        s.subrange(1, s.len() - 1)
    } else {
        Seq::empty()
    }
}

/// Whether `a` comes before `b` in dictionary order, given that they agree
/// before index `i`.
pub open spec fn less_from(a: Seq<u8>, b: Seq<u8>, i: int) -> bool
    decreases b.len() - i,
{
    if i < 0 || i >= b.len() {
        false
    } else if i >= a.len() {
        true
    } else if a[i] != b[i] {
        a[i] < b[i]
    } else {
        less_from(a, b, i + 1)
    }
}

/// Whether `a` comes before `b` in dictionary order.
pub open spec fn text_less(a: Seq<u8>, b: Seq<u8>) -> bool {
    less_from(a, b, 0)
}

/// The comparison of two strings.
pub open spec fn text_passes(op: Operator, a: Seq<u8>, b: Seq<u8>) -> bool {
    match op {
        Operator::Exists => true,
        Operator::Equal => a == b,
        Operator::NotEqual => a != b,
        Operator::Less => text_less(a, b),
        Operator::LessEqual => !text_less(b, a),
        Operator::Greater => text_less(b, a),
        Operator::GreaterEqual => !text_less(a, b),
        Operator::Like => wild_matches(b, a),
        Operator::NotLike => !wild_matches(b, a),
    }
}

/// The comparison of two numbers. A number matches no pattern.
pub open spec fn number_passes(op: Operator, x: int, y: int) -> bool {
    match op {
        Operator::Exists => true,
        Operator::Equal => x == y,
        Operator::NotEqual => x != y,
        Operator::Less => x < y,
        Operator::LessEqual => x <= y,
        Operator::Greater => x > y,
        Operator::GreaterEqual => x >= y,
        Operator::Like => false,
        Operator::NotLike => false,
    }
}

/// Whether the text is `true`, `false` or `null`.
pub open spec fn is_word(s: Seq<u8>) -> bool {
    s == seq![0x74u8, 0x72, 0x75, 0x65] || s == seq![0x66u8, 0x61, 0x6c, 0x73, 0x65] || s
        == seq![0x6eu8, 0x75, 0x6c, 0x6c]
}

/// The comparison of `true`, `false` or `null` with an operand that is one
/// of these words: they are equal when their texts are.
pub open spec fn word_passes(op: Operator, raw: Seq<u8>, operand: Seq<u8>) -> bool {
    is_word(operand) && match op {
        Operator::Equal => raw == operand,
        Operator::NotEqual => raw != operand,
        _ => false,
    }
}

/// Tells whether two texts are equal.
pub fn bytes_equal(a: &[u8], b: &[u8]) -> (r: bool)
    ensures
        r == (a@ == b@),
{
    if a.len() != b.len() {
        return false;
    }
    let mut i: usize = 0;
    while i < a.len()
        invariant
            a.len() == b.len(),
            0 <= i <= a.len(),
            forall|k: int| 0 <= k < i ==> a@[k] == b@[k],
        decreases a.len() - i,
    {
        if a[i] != b[i] {
            return false;
        }
        i += 1;
    }
    assert(a@ =~= b@);
    true
}

/// Tells whether `a` comes before `b` in dictionary order.
pub fn bytes_less(a: &[u8], b: &[u8]) -> (r: bool)
    ensures
        r == text_less(a@, b@),
{
    let mut i: usize = 0;
    while i < b.len()
        invariant
            0 <= i <= b.len(),
            text_less(a@, b@) == less_from(a@, b@, i as int),
        decreases b.len() - i,
    {
        if i >= a.len() {
            return true;
        }
        if a[i] != b[i] {
            return a[i] < b[i];
        }
        i += 1;
    }
    false
}

fn word_is(s: &[u8]) -> (r: bool)
    ensures
        r == is_word(s@),
{
    let n = s.len();
    if n == 4 {
        let t = s[0] == 0x74 && s[1] == 0x72 && s[2] == 0x75 && s[3] == 0x65;
        let u = s[0] == 0x6e && s[1] == 0x75 && s[2] == 0x6c && s[3] == 0x6c;
        proof {
            if t {
                assert(s@ =~= seq![0x74u8, 0x72, 0x75, 0x65]);
            }
            if u {
                assert(s@ =~= seq![0x6eu8, 0x75, 0x6c, 0x6c]);
            }
        }
        t || u
    } else if n == 5 {
        let f = s[0] == 0x66 && s[1] == 0x61 && s[2] == 0x6c && s[3] == 0x73 && s[4] == 0x65;
        proof {
            if f {
                assert(s@ =~= seq![0x66u8, 0x61, 0x6c, 0x73, 0x65]);
            }
        }
        f
    } else {
        false
    }
}

fn quoted(s: &[u8]) -> (r: bool)
    ensures
        r == is_quoted(s@),
{
    s.len() >= 2 && s[0] == QUOTE && s[s.len() - 1] == QUOTE
}

fn compare_text(op: Operator, a: &[u8], b: &[u8]) -> (r: bool)
    ensures
        r == text_passes(op, a@, b@),
{
    match op {
        Operator::Exists => true,
        Operator::Equal => bytes_equal(a, b),
        Operator::NotEqual => !bytes_equal(a, b),
        Operator::Less => bytes_less(a, b),
        Operator::LessEqual => !bytes_less(b, a),
        Operator::Greater => bytes_less(b, a),
        Operator::GreaterEqual => !bytes_less(a, b),
        Operator::Like => is_match(b, a),
        Operator::NotLike => !is_match(b, a),
    }
}

fn compare_numbers(op: Operator, x: i128, y: i128) -> (r: bool)
    ensures
        r == number_passes(op, x as int, y as int),
{
    match op {
        Operator::Exists => true,
        Operator::Equal => x == y,
        Operator::NotEqual => x != y,
        Operator::Less => x < y,
        Operator::LessEqual => x <= y,
        Operator::Greater => x > y,
        Operator::GreaterEqual => x >= y,
        Operator::Like => false,
        Operator::NotLike => false,
    }
}

fn compare_words(op: Operator, raw: &[u8], operand: &[u8]) -> (r: bool)
    ensures
        r == word_passes(op, raw@, operand@),
{
    if !word_is(operand) {
        return false;
    }
    match op {
        Operator::Equal => bytes_equal(raw, operand),
        Operator::NotEqual => !bytes_equal(raw, operand),
        _ => false,
    }
}

impl<'a> Query<'a> {
    /// A filter that is not there.
    pub(crate) fn absent(empty: &'a [u8]) -> (q: Query<'a>)
        requires
            empty@.len() == 0,
        ensures
            q@ == absent_query(),
    {
        assert(empty@ =~= Seq::<u8>::empty());
        Query { on: false, all: false, path: empty, op: Operator::Exists, value: empty }
    }

    /// Whether each candidate is first looked into along a path.
    pub fn has_path(&self) -> (r: bool)
        ensures
            r == (self@.path.len() > 0),
    {
        self.path.len() > 0
    }

    /// Tells whether a candidate passes the comparison.
    pub fn match_element(&self, element: &Element) -> (r: bool)
        ensures
            r == self@.accepts(element@),
    {
        if let Operator::Exists = self.op {
            return true;
        }
        match element {
            Element::String(raw) => {
                if quoted(raw) && quoted(self.value) {
                    compare_text(
                        self.op,
                        &raw[1..raw.len() - 1],
                        &self.value[1..self.value.len() - 1],
                    )
                } else {
                    false
                }
            },
            Element::Number(raw) => {
                match parse_decimal(raw) {
                    Some(x) => match parse_decimal(self.value) {
                        Some(y) => compare_numbers(self.op, x, y),
                        None => false,
                    },
                    None => false,
                }
            },
            Element::Boolean(raw) => compare_words(self.op, raw, self.value),
            Element::Null(raw) => compare_words(self.op, raw, self.value),
            _ => false,
        }
    }
}

/// The view of a filter that is not there.
pub open spec fn absent_query() -> QueryView {
    QueryView {
        on: false,
        all: false,
        path: Seq::empty(),
        op: Operator::Exists,
        value: Seq::empty(),
    }
}

impl<'a> Path<'a> {
    /// Whether a continuation follows this segment.
    pub fn more(&self) -> (r: bool)
        ensures
            r == self@.more(),
    {
        self.next.is_some()
    }

    /// Whether this segment is a multi-selector group.
    pub fn has_selectors(&self) -> (r: bool)
        ensures
            r == (self@.selectors is Some),
    {
        self.selectors.is_some()
    }

    /// Tells whether a key matches this segment.
    pub fn is_match(&self, key: &[u8]) -> (r: bool)
        ensures
            r == self@.is_match(key@),
    {
        is_match(self.part, key)
    }
}

} // verus!
