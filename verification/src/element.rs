//! The values that a traversal yields, and the tokenizer that reads one value
//! from the front of a buffer.

use crate::bytes::{
    compound_end, is_closer, lemma_compound_end_bounds, lemma_literal_end_bounds,
    lemma_next_mark_bounds, lemma_string_end_bounds, literal_end, next_mark, scan_compound,
    scan_literal, scan_mark, scan_string, string_end, CLOSE_BRACE, CLOSE_BRACKET, OPEN_BRACE,
    OPEN_BRACKET, QUOTE,
};
use crate::error::Error;
use vstd::prelude::*;

verus! {

/// One named slot of a synthesized map.
#[derive(Debug, PartialEq, Eq)]
pub struct Member<'a> {
    pub name: Vec<u8>,
    pub value: Element<'a>,
}

/// A value met during a traversal: a span of the document that is still
/// encoded, or a composite that a query asked the engine to build.
#[derive(Debug, PartialEq, Eq)]
pub enum Element<'a> {
    /// A string, with its quotes and with its escapes as written.
    String(&'a [u8]),
    /// A number, as written.
    Number(&'a [u8]),
    /// `true` or `false`, as written.
    Boolean(&'a [u8]),
    /// `null`, as written.
    Null(&'a [u8]),
    /// An array, with its brackets. A path goes deeper by scanning it anew.
    Array(&'a [u8]),
    /// An object, with its braces.
    Object(&'a [u8]),
    /// What a group with braces built: members with distinct names, in the
    /// order in which the names first occurred.
    Mapping(Vec<Member<'a>>),
    /// What a group with square brackets, a filter or a collecting segment
    /// built.
    List(Vec<Element<'a>>),
    /// What a count marker yielded.
    Count(usize),
}

/// A member as mathematics.
pub struct MemberView {
    pub name: Seq<u8>,
    pub value: ElementView,
}

/// An element as mathematics: spans are sequences of bytes, composites are
/// sequences of elements.
pub enum ElementView {
    String(Seq<u8>),
    Number(Seq<u8>),
    Boolean(Seq<u8>),
    Null(Seq<u8>),
    Array(Seq<u8>),
    Object(Seq<u8>),
    Mapping(Seq<MemberView>),
    List(Seq<ElementView>),
    Count(nat),
}

impl<'a> View for Member<'a> {
    type V = MemberView;

    open spec fn view(&self) -> MemberView
        decreases self,
    {
        MemberView { name: self.name@, value: self.value@ }
    }
}

impl<'a> View for Element<'a> {
    type V = ElementView;

    open spec fn view(&self) -> ElementView
        decreases self,
    {
        match self {
            Element::String(s) => ElementView::String(s@),
            Element::Number(s) => ElementView::Number(s@),
            Element::Boolean(s) => ElementView::Boolean(s@),
            Element::Null(s) => ElementView::Null(s@),
            Element::Array(s) => ElementView::Array(s@),
            Element::Object(s) => ElementView::Object(s@),
            Element::Mapping(m) => ElementView::Mapping(member_views(m@)),
            Element::List(l) => ElementView::List(element_views(l@)),
            Element::Count(n) => ElementView::Count(*n as nat),
        }
    }
}

/// The views of a run of elements, one for one.
pub open spec fn element_views(s: Seq<Element>) -> Seq<ElementView>
    decreases s,
{
    if s.len() == 0 {
        Seq::empty()
    } else {
        element_views(s.drop_last()).push(s.last()@)
    }
}

/// The views of a run of members, one for one.
pub open spec fn member_views(s: Seq<Member>) -> Seq<MemberView>
    decreases s,
{
    if s.len() == 0 {
        Seq::empty()
    } else {
        member_views(s.drop_last()).push(s.last()@)
    }
}

/// The views of a run of elements are as many as the elements, and each is
/// the view of the element at its index.
pub proof fn lemma_element_views(s: Seq<Element>)
    ensures
        element_views(s).len() == s.len(),
        forall|i: int| 0 <= i < s.len() ==> (#[trigger] element_views(s)[i]) == s[i]@,
    decreases s.len(),
{
    if s.len() > 0 {
        lemma_element_views(s.drop_last());
        assert(element_views(s) == element_views(s.drop_last()).push(s.last()@));
    } else {
        assert(element_views(s) == Seq::<ElementView>::empty());
    }
}

/// The views of a run of members are as many as the members, and each is
/// the view of the member at its index.
pub proof fn lemma_member_views(s: Seq<Member>)
    ensures
        member_views(s).len() == s.len(),
        forall|i: int| 0 <= i < s.len() ==> (#[trigger] member_views(s)[i]) == s[i]@,
    decreases s.len(),
{
    if s.len() > 0 {
        lemma_member_views(s.drop_last());
        assert(member_views(s) == member_views(s.drop_last()).push(s.last()@));
    } else {
        assert(member_views(s) == Seq::<MemberView>::empty());
    }
}

/// What one step of a traversal yields, as mathematics: the element found, if
/// any, and the bytes that remain; or the hard error that stopped it.
pub type Outcome = Result<(Option<ElementView>, Seq<u8>), Error>;

/// The view of an optional element.
pub open spec fn option_view(e: Option<Element>) -> Option<ElementView> {
    match e {
        Some(e) => Some(e@),
        None => None,
    }
}

/// The view of what an executable step returned.
pub open spec fn outcome_view(r: Result<(Option<Element>, &[u8]), Error>) -> Outcome {
    match r {
        Ok((e, rest)) => Ok((option_view(e), rest@)),
        Err(e) => Err(e),
    }
}

/// The scalar that a bare literal starting with byte `b` stands for: a
/// boolean for `t` and `f`, null for `n`, a number otherwise.
pub open spec fn literal_view(b: u8, span: Seq<u8>) -> ElementView {
    if b == 0x74 || b == 0x66 {
        ElementView::Boolean(span)
    } else if b == 0x6e {
        ElementView::Null(span)
    } else {
        ElementView::Number(span)
    }
}

/// The value that begins at index `i` of `s`, with the bytes after it. A
/// string runs to its closing quote, a container to its matching bracket, a
/// bare literal to the next comma, closing bracket or white space. A string
/// or container that the input cuts short is a hard error.
pub open spec fn value_at(s: Seq<u8>, i: int) -> Outcome {
    let b = s[i];
    if b == QUOTE {
        match string_end(s, i + 1) {
            Some(e) => Ok(
                (Some(ElementView::String(s.subrange(i, e))), s.subrange(e, s.len() as int)),
            ),
            None => Err(Error::String),
        }
    } else if b == OPEN_BRACE {
        match compound_end(s, i + 1, 1) {
            Some(e) => Ok(
                (Some(ElementView::Object(s.subrange(i, e))), s.subrange(e, s.len() as int)),
            ),
            None => Err(Error::Object),
        }
    } else if b == OPEN_BRACKET {
        match compound_end(s, i + 1, 1) {
            Some(e) => Ok(
                (Some(ElementView::Array(s.subrange(i, e))), s.subrange(e, s.len() as int)),
            ),
            None => Err(Error::Array),
        }
    } else {
        let e = literal_end(s, i);
        Ok((Some(literal_view(b, s.subrange(i, e))), s.subrange(e, s.len() as int)))
    }
}

/// Reading one value from the front of `s`. Bytes that neither start a value
/// nor close a container are passed over. A closing bracket met before any
/// value ends the enclosing container: nothing is found, and what remains
/// starts after that bracket. At the end of the input nothing is found and
/// nothing remains.
pub open spec fn read_one_spec(s: Seq<u8>) -> Outcome {
    let i = next_mark(s, 0);
    if i >= s.len() {
        Ok((None, Seq::empty()))
    } else if is_closer(s[i]) {
        Ok((None, s.subrange(i + 1, s.len() as int)))
    } else {
        value_at(s, i)
    }
}

/// A value that was read takes at least one byte of the input, and nothing
/// ever remains that was not there.
pub proof fn lemma_read_one_advances(s: Seq<u8>)
    ensures
        read_one_spec(s) matches Ok((found, rest)) ==> rest.len() <= s.len() && (found is Some
            ==> rest.len() < s.len()),
{
    let i = next_mark(s, 0);
    lemma_next_mark_bounds(s, 0);
    if i < s.len() && !is_closer(s[i]) {
        lemma_string_end_bounds(s, i + 1);
        lemma_compound_end_bounds(s, i + 1, 1);
        lemma_literal_end_bounds(s, i);
    }
}

/// Reads one value from the front of `input`.
pub fn read_one<'a>(input: &'a [u8]) -> (r: Result<(Option<Element<'a>>, &'a [u8]), Error>)
    ensures
        outcome_view(r) == read_one_spec(input@),
{
    let n = input.len();
    let i = scan_mark(input, 0);
    if i >= n {
        assert(input@.subrange(n as int, n as int) =~= Seq::<u8>::empty());
        return Ok((None, &input[n..n]));
    }
    let b = input[i];
    if b == CLOSE_BRACE || b == CLOSE_BRACKET {
        return Ok((None, &input[i + 1..n]));
    }
    if b == QUOTE {
        match scan_string(input, i + 1) {
            Some(e) => Ok((Some(Element::String(&input[i..e])), &input[e..n])),
            None => Err(Error::String),
        }
    } else if b == OPEN_BRACE {
        match scan_compound(input, i + 1) {
            Some(e) => Ok((Some(Element::Object(&input[i..e])), &input[e..n])),
            None => Err(Error::Object),
        }
    } else if b == OPEN_BRACKET {
        match scan_compound(input, i + 1) {
            Some(e) => Ok((Some(Element::Array(&input[i..e])), &input[e..n])),
            None => Err(Error::Array),
        }
    } else {
        let e = scan_literal(input, i);
        let span = &input[i..e];
        let element = if b == 0x74 || b == 0x66 {
            Element::Boolean(span)
        } else if b == 0x6e {
            Element::Null(span)
        } else {
            Element::Number(span)
        };
        Ok((Some(element), &input[e..n]))
    }
}

} // verus!
