//! Values that stand on their own: what an element becomes once it no longer
//! borrows from the document.

use crate::bytes::{
    copied, lemma_compound_end_bounds, lemma_literal_end_bounds, lemma_next_mark_bounds,
    lemma_string_end_bounds, next_mark, BACKSLASH,
};
use crate::element::{
    lemma_element_views, lemma_member_views, element_views, member_views, read_one,
    read_one_spec, Element, ElementView, Member, MemberView,
};
use crate::error::Error;
use crate::path::{bytes_equal, unquoted};
use vstd::prelude::*;

verus! {

/// One named slot of an object.
#[derive(Debug, PartialEq, Eq)]
pub struct Entry {
    pub name: Vec<u8>,
    pub value: Value,
}

/// A value that owns its bytes: the whole tree below it is read and copied.
#[derive(Debug, PartialEq, Eq)]
pub enum Value {
    Null,
    Boolean(bool),
    /// A number, as the text that the document wrote it with.
    Number(Vec<u8>),
    /// A string, without its quotes and with its escapes decoded.
    String(Vec<u8>),
    /// The elements of an array, or of a list that a query collected.
    Array(Vec<Value>),
    /// The members of an object, or of a map that a group of selectors
    /// built: entries with distinct names, in the order in which the names
    /// first occurred.
    Object(Vec<Entry>),
    /// A count of elements.
    Usize(usize),
}

/// An entry as mathematics.
pub struct EntryView {
    pub name: Seq<u8>,
    pub value: ValueView,
}

/// A value as mathematics.
pub enum ValueView {
    Null,
    Boolean(bool),
    Number(Seq<u8>),
    String(Seq<u8>),
    Array(Seq<ValueView>),
    Object(Seq<EntryView>),
    Usize(nat),
}

impl View for Entry {
    type V = EntryView;

    open spec fn view(&self) -> EntryView
        decreases self,
    {
        EntryView { name: self.name@, value: self.value@ }
    }
}

impl View for Value {
    type V = ValueView;

    open spec fn view(&self) -> ValueView
        decreases self,
    {
        match self {
            Value::Null => ValueView::Null,
            Value::Boolean(b) => ValueView::Boolean(*b),
            Value::Number(s) => ValueView::Number(s@),
            Value::String(s) => ValueView::String(s@),
            Value::Array(l) => ValueView::Array(value_views(l@)),
            Value::Object(m) => ValueView::Object(entry_views(m@)),
            Value::Usize(n) => ValueView::Usize(*n as nat),
        }
    }
}

/// The views of a run of values, one for one.
pub open spec fn value_views(s: Seq<Value>) -> Seq<ValueView>
    decreases s,
{
    if s.len() == 0 {
        Seq::empty()
    } else {
        value_views(s.drop_last()).push(s.last()@)
    }
}

/// The views of a run of entries, one for one.
pub open spec fn entry_views(s: Seq<Entry>) -> Seq<EntryView>
    decreases s,
{
    if s.len() == 0 {
        Seq::empty()
    } else {
        entry_views(s.drop_last()).push(s.last()@)
    }
}

/// The views of a run of values are as many as the values, and each is the
/// view of the value at its index.
pub proof fn lemma_value_views(s: Seq<Value>)
    ensures
        value_views(s).len() == s.len(),
        forall|i: int| 0 <= i < s.len() ==> (#[trigger] value_views(s)[i]) == s[i]@,
    decreases s.len(),
{
    if s.len() > 0 {
        lemma_value_views(s.drop_last());
        assert(value_views(s) == value_views(s.drop_last()).push(s.last()@));
    } else {
        assert(value_views(s) == Seq::<ValueView>::empty());
    }
}

/// The views of a run of entries are as many as the entries, and each is
/// the view of the entry at its index.
pub proof fn lemma_entry_views(s: Seq<Entry>)
    ensures
        entry_views(s).len() == s.len(),
        forall|i: int| 0 <= i < s.len() ==> (#[trigger] entry_views(s)[i]) == s[i]@,
    decreases s.len(),
{
    if s.len() > 0 {
        lemma_entry_views(s.drop_last());
        assert(entry_views(s) == entry_views(s.drop_last()).push(s.last()@));
    } else {
        assert(entry_views(s) == Seq::<EntryView>::empty());
    }
}

/// The value of a hexadecimal digit.
pub open spec fn hex_value(b: u8) -> Option<nat> {
    if 0x30 <= b <= 0x39 {
        Some((b - 0x30) as nat)
    } else if 0x41 <= b <= 0x46 {
        Some((b - 0x41 + 10) as nat)
    } else if 0x61 <= b <= 0x66 {
        Some((b - 0x61 + 10) as nat)
    } else {
        None
    }
}

/// The number that the four hexadecimal digits at index `i` write, if four
/// such digits stand there.
pub open spec fn code_unit(s: Seq<u8>, i: int) -> Option<nat> {
    if 0 <= i && i + 4 <= s.len() {
        match (hex_value(s[i]), hex_value(s[i + 1]), hex_value(s[i + 2]), hex_value(s[i + 3])) {
            (Some(a), Some(b), Some(c), Some(d)) => Some(a * 4096 + b * 256 + c * 16 + d),
            _ => None,
        }
    } else {
        None
    }
}

/// The code unit that the escape `\uXXXX` at index `i` writes.
pub open spec fn unicode_escape(s: Seq<u8>, i: int) -> Option<nat> {
    if 0 <= i && i + 6 <= s.len() && s[i] == BACKSLASH && s[i + 1] == 0x75 {
        code_unit(s, i + 2)
    } else {
        None
    }
}

/// The bytes that encode a code point below 0x110000 in UTF-8.
pub open spec fn utf8(c: nat) -> Seq<u8> {
    if c < 0x80 {
        seq![c as u8]
    } else if c < 0x800 {
        seq![(0xc0 + c / 64) as u8, (0x80 + c % 64) as u8]
    } else if c < 0x10000 {
        seq![(0xe0 + c / 4096) as u8, (0x80 + (c / 64) % 64) as u8, (0x80 + c % 64) as u8]
    } else {
        seq![
            (0xf0 + c / 262144) as u8,
            (0x80 + (c / 4096) % 64) as u8,
            (0x80 + (c / 64) % 64) as u8,
            (0x80 + c % 64) as u8,
        ]
    }
}

/// The byte that a backslash and the byte `c` stand for: a control character
/// for `b`, `f`, `n`, `r` and `t`, and `c` itself otherwise.
pub open spec fn escaped_byte(c: u8) -> u8 {
    if c == 0x62 {
        0x08
    } else if c == 0x66 {
        0x0c
    } else if c == 0x6e {
        0x0a
    } else if c == 0x72 {
        0x0d
    } else if c == 0x74 {
        0x09
    } else {
        c
    }
}

/// The code point U+FFFD, which stands in for half a surrogate pair.
pub const REPLACEMENT: u32 = 0xfffd;

/// The content of a string from index `i` on, with its escapes decoded.
///
/// `\uXXXX` stands for the code point that its four hexadecimal digits
/// write, encoded in UTF-8. Two such escapes that form a surrogate pair
/// stand for one code point; half a pair alone stands for U+FFFD. Any other
/// backslash and the byte after it stand for what `escaped_byte` says. A
/// backslash at the very end stands for itself.
pub open spec fn unescaped_from(s: Seq<u8>, i: int) -> Seq<u8>
    decreases s.len() - i,
{
    if i < 0 || i >= s.len() {
        Seq::empty()
    } else if s[i] == BACKSLASH && i + 1 < s.len() {
        match unicode_escape(s, i) {
            Some(hi) => {
                if 0xd800 <= hi < 0xdc00 {
                    match unicode_escape(s, i + 6) {
                        Some(lo) => if 0xdc00 <= lo < 0xe000 {
                            utf8((0x10000 + (hi - 0xd800) * 1024 + (lo - 0xdc00)) as nat)
                                + unescaped_from(s, i + 12)
                        } else {
                            utf8(REPLACEMENT as nat) + unescaped_from(s, i + 6)
                        },
                        None => utf8(REPLACEMENT as nat) + unescaped_from(s, i + 6),
                    }
                } else if 0xdc00 <= hi < 0xe000 {
                    utf8(REPLACEMENT as nat) + unescaped_from(s, i + 6)
                } else {
                    utf8(hi) + unescaped_from(s, i + 6)
                }
            },
            None => seq![escaped_byte(s[i + 1])] + unescaped_from(s, i + 2),
        }
    } else {
        seq![s[i]] + unescaped_from(s, i + 1)
    }
}

/// The content of a string with its escapes decoded.
pub open spec fn unescaped(s: Seq<u8>) -> Seq<u8> {
    unescaped_from(s, 0)
}

/// The index of the first entry at or after `i` whose name is `name`.
pub open spec fn entry_position(m: Seq<EntryView>, name: Seq<u8>, i: int) -> Option<int>
    decreases m.len() - i,
{
    if i < 0 || i >= m.len() {
        None
    } else if m[i].name == name {
        Some(i)
    } else {
        entry_position(m, name, i + 1)
    }
}

/// An object after `name` was given the value `value`: the entry of that
/// name has the new value, or a new entry stands at the end.
pub open spec fn with_entry(m: Seq<EntryView>, name: Seq<u8>, value: ValueView) -> Seq<EntryView> {
    match entry_position(m, name, 0) {
        Some(i) => m.update(i, EntryView { name, value }),
        None => m.push(EntryView { name, value }),
    }
}

/// Whether no two entries have one name.
pub open spec fn distinct_names(m: Seq<EntryView>) -> bool {
    forall|i: int, j: int| 0 <= i < j < m.len() ==> (#[trigger] m[i]).name != (#[trigger] m[j]).name
}

/// Whether a value is as the engine builds it: in every object, at any
/// depth, no two entries have one name.
pub open spec fn value_well_formed(v: ValueView) -> bool
    decreases v,
{
    match v {
        ValueView::Object(m) => distinct_names(m) && forall|i: int|
            0 <= i < m.len() ==> value_well_formed((#[trigger] m[i]).value),
        ValueView::Array(l) => forall|i: int|
            0 <= i < l.len() ==> value_well_formed(#[trigger] l[i]),
        _ => true,
    }
}

/// Whether an object has no name twice and only well-formed values.
pub open spec fn entries_well_formed(m: Seq<EntryView>) -> bool {
    distinct_names(m) && forall|i: int|
        0 <= i < m.len() ==> value_well_formed((#[trigger] m[i]).value)
}

/// Whether every value of a list is well formed.
pub open spec fn values_well_formed(l: Seq<ValueView>) -> bool {
    forall|i: int| 0 <= i < l.len() ==> value_well_formed(#[trigger] l[i])
}

/// The length of the text of a span; zero for a composite.
pub open spec fn span_len(e: ElementView) -> nat {
    match e {
        ElementView::String(raw) => raw.len(),
        ElementView::Number(raw) => raw.len(),
        ElementView::Boolean(raw) => raw.len(),
        ElementView::Null(raw) => raw.len(),
        ElementView::Array(raw) => raw.len(),
        ElementView::Object(raw) => raw.len(),
        _ => 0,
    }
}

/// A value that was read lies within what it was read from.
pub proof fn lemma_read_one_span(s: Seq<u8>)
    ensures
        read_one_spec(s) matches Ok((Some(v), rest)) ==> span_len(v) + rest.len() <= s.len()
            && rest.len() < s.len(),
        read_one_spec(s) matches Ok((Some(ElementView::String(raw)), _)) ==> raw.len() >= 2,
{
    let i = next_mark(s, 0);
    lemma_next_mark_bounds(s, 0);
    if i < s.len() {
        lemma_string_end_bounds(s, i + 1);
        lemma_compound_end_bounds(s, i + 1, 1);
        lemma_literal_end_bounds(s, i);
    }
}

/// The value that a span of the document stands for, read to its leaves.
///
/// A string loses its quotes and has its escapes decoded. A boolean is
/// true when its text starts with `t`. A number keeps its text. An array
/// stands for the values of its elements and an object for the values of
/// its members, as `array_values` and `object_entries` read them; what
/// these cannot read is a hard error. A count keeps its number. A map or a
/// list, which is no span, stands for null here: `value_of` gives their
/// value.
pub open spec fn span_value(e: ElementView) -> Result<ValueView, Error>
    decreases span_len(e), 0nat,
{
    match e {
        ElementView::String(raw) => Ok(ValueView::String(unescaped(unquoted(raw)))),
        ElementView::Number(raw) => Ok(ValueView::Number(raw)),
        ElementView::Boolean(raw) => Ok(ValueView::Boolean(raw.len() > 0 && raw[0] == 0x74)),
        ElementView::Null(_) => Ok(ValueView::Null),
        ElementView::Array(raw) => if raw.len() == 0 {
            Ok(ValueView::Array(Seq::empty()))
        } else {
            match array_values(raw.subrange(1, raw.len() as int), Seq::empty()) {
                Ok(l) => Ok(ValueView::Array(l)),
                Err(e) => Err(e),
            }
        },
        ElementView::Object(raw) => if raw.len() == 0 {
            Ok(ValueView::Object(Seq::empty()))
        } else {
            match object_entries(raw.subrange(1, raw.len() as int), Seq::empty()) {
                Ok(m) => Ok(ValueView::Object(m)),
                Err(e) => Err(e),
            }
        },
        ElementView::Count(n) => Ok(ValueView::Usize(n)),
        _ => Ok(ValueView::Null),
    }
}

/// The values of the elements of an array, reading them from the front of
/// `s` up to the bracket that closes the array, after those in `acc`.
pub open spec fn array_values(s: Seq<u8>, acc: Seq<ValueView>) -> Result<Seq<ValueView>, Error>
    decreases s.len(), 1nat,
{
    match read_one_spec(s) {
        Err(e) => Err(e),
        Ok((None, _)) => Ok(acc),
        Ok((Some(v), rest)) => {
            proof {
                lemma_read_one_span(s);
            }
            match span_value(v) {
                Err(e) => Err(e),
                Ok(x) => array_values(rest, acc.push(x)),
            }
        },
    }
}

/// The members of an object as entries, reading them from the front of `s`
/// up to the bracket that closes the object, added to those in `acc`. A key
/// is taken without its quotes and as it is written. Of two members with one
/// key the later one gives the value. A key that is not a string is a hard
/// error.
pub open spec fn object_entries(s: Seq<u8>, acc: Seq<EntryView>) -> Result<Seq<EntryView>, Error>
    decreases s.len(), 1nat,
{
    match read_one_spec(s) {
        Err(e) => Err(e),
        Ok((None, _)) => Ok(acc),
        Ok((Some(ElementView::String(raw)), rest)) => match read_one_spec(rest) {
            Err(e) => Err(e),
            Ok((None, _)) => Ok(acc),
            Ok((Some(v), after)) => {
                proof {
                    lemma_read_one_span(s);
                    lemma_read_one_span(rest);
                }
                match span_value(v) {
                    Err(e) => Err(e),
                    Ok(x) => object_entries(after, with_entry(acc, unquoted(raw), x)),
                }
            },
        },
        Ok((Some(_), _)) => Err(Error::ObjectKey),
    }
}

/// The value that an element stands for: for a span what `span_value`
/// says, for a list the values of its elements, for a map the values of its
/// members under their names.
pub open spec fn value_of(e: ElementView) -> Result<ValueView, Error>
    decreases e, 0nat,
{
    match e {
        ElementView::List(l) => match values_of(l, 0, Seq::empty()) {
            Ok(x) => Ok(ValueView::Array(x)),
            Err(e) => Err(e),
        },
        ElementView::Mapping(m) => match entries_of(m, 0, Seq::empty()) {
            Ok(x) => Ok(ValueView::Object(x)),
            Err(e) => Err(e),
        },
        _ => span_value(e),
    }
}

/// The values that the elements of a list stand for from index `i` on, one
/// for one, after `acc`.
pub open spec fn values_of(l: Seq<ElementView>, i: int, acc: Seq<ValueView>) -> Result<
    Seq<ValueView>,
    Error,
>
    decreases l, l.len() - i,
{
    if i < 0 || i >= l.len() {
        Ok(acc)
    } else {
        match value_of(l[i]) {
            Err(e) => Err(e),
            Ok(x) => values_of(l, i + 1, acc.push(x)),
        }
    }
}

/// The entries that the members of a map stand for from index `i` on, one
/// for one, after `acc`.
pub open spec fn entries_of(m: Seq<MemberView>, i: int, acc: Seq<EntryView>) -> Result<
    Seq<EntryView>,
    Error,
>
    decreases m, m.len() - i,
{
    if i < 0 || i >= m.len() {
        Ok(acc)
    } else {
        match value_of(m[i].value) {
            Err(e) => Err(e),
            Ok(x) => entries_of(m, i + 1, acc.push(EntryView { name: m[i].name, value: x })),
        }
    }
}

/// The view of a value, or of the error in its place.
pub open spec fn value_outcome(r: Result<Value, Error>) -> Result<ValueView, Error> {
    match r {
        Ok(v) => Ok(v@),
        Err(e) => Err(e),
    }
}

/// The view of a list of values, or of the error in its place.
pub open spec fn values_outcome(r: Result<Vec<Value>, Error>) -> Result<Seq<ValueView>, Error> {
    match r {
        Ok(v) => Ok(value_views(v@)),
        Err(e) => Err(e),
    }
}

/// The view of the entries of an object, or of the error in their place.
pub open spec fn entries_outcome(r: Result<Vec<Entry>, Error>) -> Result<Seq<EntryView>, Error> {
    match r {
        Ok(v) => Ok(entry_views(v@)),
        Err(e) => Err(e),
    }
}

/// Where the first entry of a given name stands, if there is one.
pub proof fn lemma_entry_position(m: Seq<EntryView>, name: Seq<u8>, i: int)
    requires
        0 <= i,
    ensures
        match entry_position(m, name, i) {
            Some(k) => i <= k < m.len() && m[k].name == name,
            None => forall|j: int| i <= j < m.len() ==> (#[trigger] m[j]).name != name,
        },
    decreases m.len() - i,
{
    if i < m.len() && m[i].name != name {
        lemma_entry_position(m, name, i + 1);
    }
}

/// Giving a name a well-formed value keeps an object well formed.
pub proof fn lemma_with_entry_well_formed(m: Seq<EntryView>, name: Seq<u8>, value: ValueView)
    requires
        entries_well_formed(m),
        value_well_formed(value),
    ensures
        entries_well_formed(with_entry(m, name, value)),
{
    lemma_entry_position(m, name, 0);
    let r = with_entry(m, name, value);
    assert forall|i: int, j: int| 0 <= i < j < r.len() implies (#[trigger] r[i]).name != (
    #[trigger] r[j]).name by {
        match entry_position(m, name, 0) {
            Some(k) => {
                assert(m[i].name != m[j].name);
            },
            None => {
                if j < m.len() {
                    assert(m[i].name != m[j].name);
                } else {
                    assert(m[i].name != name);
                }
            },
        }
    }
    assert forall|i: int| 0 <= i < r.len() implies value_well_formed((#[trigger] r[i]).value) by {
        if i < m.len() {
            assert(value_well_formed(m[i].value));
        }
    }
}

/// The value of a span is well formed: no object in it has a name twice.
pub proof fn lemma_span_value_well_formed(e: ElementView)
    ensures
        span_value(e) matches Ok(v) ==> value_well_formed(v),
    decreases span_len(e), 0nat,
{
    match e {
        ElementView::Array(raw) => {
            if raw.len() > 0 {
                lemma_array_values_well_formed(raw.subrange(1, raw.len() as int), Seq::empty());
            }
        },
        ElementView::Object(raw) => {
            if raw.len() > 0 {
                lemma_object_entries_well_formed(raw.subrange(1, raw.len() as int), Seq::empty());
            }
        },
        _ => {},
    }
}

/// The values read from an array are well formed.
pub proof fn lemma_array_values_well_formed(s: Seq<u8>, acc: Seq<ValueView>)
    requires
        values_well_formed(acc),
    ensures
        array_values(s, acc) matches Ok(l) ==> values_well_formed(l),
    decreases s.len(), 1nat,
{
    match read_one_spec(s) {
        Ok((Some(v), rest)) => {
            lemma_read_one_span(s);
            lemma_span_value_well_formed(v);
            match span_value(v) {
                Ok(x) => {
                    lemma_array_values_well_formed(rest, acc.push(x));
                },
                Err(_) => {},
            }
        },
        _ => {},
    }
}

/// The entries read from an object have distinct names and well-formed
/// values.
pub proof fn lemma_object_entries_well_formed(s: Seq<u8>, acc: Seq<EntryView>)
    requires
        entries_well_formed(acc),
    ensures
        object_entries(s, acc) matches Ok(m) ==> entries_well_formed(m),
    decreases s.len(), 1nat,
{
    match read_one_spec(s) {
        Ok((Some(ElementView::String(raw)), rest)) => match read_one_spec(rest) {
            Ok((Some(v), after)) => {
                lemma_read_one_span(s);
                lemma_read_one_span(rest);
                lemma_span_value_well_formed(v);
                match span_value(v) {
                    Ok(x) => {
                        lemma_with_entry_well_formed(acc, unquoted(raw), x);
                        lemma_object_entries_well_formed(
                            after,
                            with_entry(acc, unquoted(raw), x),
                        );
                    },
                    Err(_) => {},
                }
            },
            _ => {},
        },
        _ => {},
    }
}

fn hex_digit(b: u8) -> (r: Option<u32>)
    ensures
        match hex_value(b) {
            Some(v) => r == Some(v as u32) && v < 16,
            None => r.is_none(),
        },
{
    if 0x30 <= b && b <= 0x39 {
        Some((b - 0x30) as u32)
    } else if 0x41 <= b && b <= 0x46 {
        Some((b - 0x41 + 10) as u32)
    } else if 0x61 <= b && b <= 0x66 {
        Some((b - 0x61 + 10) as u32)
    } else {
        None
    }
}

fn read_code_unit(s: &[u8], i: usize) -> (r: Option<u32>)
    requires
        i <= s.len(),
    ensures
        match code_unit(s@, i as int) {
            Some(v) => r == Some(v as u32) && v < 0x10000,
            None => r.is_none(),
        },
{
    if s.len() - i < 4 {
        return None;
    }
    let a = match hex_digit(s[i]) {
        Some(v) => v,
        None => {
            return None;
        },
    };
    let b = match hex_digit(s[i + 1]) {
        Some(v) => v,
        None => {
            return None;
        },
    };
    let c = match hex_digit(s[i + 2]) {
        Some(v) => v,
        None => {
            return None;
        },
    };
    let d = match hex_digit(s[i + 3]) {
        Some(v) => v,
        None => {
            return None;
        },
    };
    Some(a * 4096 + b * 256 + c * 16 + d)
}

fn read_unicode_escape(s: &[u8], i: usize) -> (r: Option<u32>)
    requires
        i <= s.len(),
    ensures
        match unicode_escape(s@, i as int) {
            Some(v) => r == Some(v as u32) && v < 0x10000 && i + 6 <= s.len(),
            None => r.is_none(),
        },
{
    if s.len() - i >= 6 && s[i] == BACKSLASH && s[i + 1] == 0x75 {
        read_code_unit(s, i + 2)
    } else {
        None
    }
}

fn push_utf8(out: &mut Vec<u8>, c: u32)
    requires
        c < 0x110000,
    ensures
        final(out)@ == old(out)@ + utf8(c as nat),
{
    let ghost before = out@;
    if c < 0x80 {
        out.push(c as u8);
        assert(out@ =~= before + utf8(c as nat));
    } else if c < 0x800 {
        out.push((0xc0 + c / 64) as u8);
        out.push((0x80 + c % 64) as u8);
        assert(out@ =~= before + utf8(c as nat));
    } else if c < 0x10000 {
        out.push((0xe0 + c / 4096) as u8);
        out.push((0x80 + (c / 64) % 64) as u8);
        out.push((0x80 + c % 64) as u8);
        assert(out@ =~= before + utf8(c as nat));
    } else {
        out.push((0xf0 + c / 262144) as u8);
        out.push((0x80 + (c / 4096) % 64) as u8);
        out.push((0x80 + (c / 64) % 64) as u8);
        out.push((0x80 + c % 64) as u8);
        assert(out@ =~= before + utf8(c as nat));
    }
}

fn byte_escaped(c: u8) -> (r: u8)
    ensures
        r == escaped_byte(c),
{
    if c == 0x62 {
        0x08
    } else if c == 0x66 {
        0x0c
    } else if c == 0x6e {
        0x0a
    } else if c == 0x72 {
        0x0d
    } else if c == 0x74 {
        0x09
    } else {
        c
    }
}

/// Decodes the escapes in the content of a string.
pub fn unescape(s: &[u8]) -> (r: Vec<u8>)
    ensures
        r@ == unescaped(s@),
{
    let n = s.len();
    let mut out: Vec<u8> = Vec::new();
    let mut i: usize = 0;
    assert(out@ + unescaped_from(s@, 0) =~= unescaped_from(s@, 0));
    while i < n
        invariant
            0 <= i <= n,
            n == s.len(),
            unescaped(s@) == out@ + unescaped_from(s@, i as int),
        decreases n - i,
    {
        let ghost before = out@;
        let ghost tail = unescaped_from(s@, i as int);
        let b = s[i];
        if b == BACKSLASH && i + 1 < n {
            match read_unicode_escape(s, i) {
                Some(hi) => {
                    if 0xd800 <= hi && hi < 0xdc00 {
                        let lo = read_unicode_escape(s, i + 6);
                        match lo {
                            Some(lo) => {
                                if 0xdc00 <= lo && lo < 0xe000 {
                                    let c = 0x10000 + (hi - 0xd800) * 1024 + (lo - 0xdc00);
                                    push_utf8(&mut out, c);
                                    i += 12;
                                    assert(before + tail =~= out@ + unescaped_from(s@, i as int));
                                } else {
                                    push_utf8(&mut out, REPLACEMENT);
                                    i += 6;
                                    assert(before + tail =~= out@ + unescaped_from(s@, i as int));
                                }
                            },
                            None => {
                                push_utf8(&mut out, REPLACEMENT);
                                i += 6;
                                assert(before + tail =~= out@ + unescaped_from(s@, i as int));
                            },
                        }
                    } else if 0xdc00 <= hi && hi < 0xe000 {
                        push_utf8(&mut out, REPLACEMENT);
                        i += 6;
                        assert(before + tail =~= out@ + unescaped_from(s@, i as int));
                    } else {
                        push_utf8(&mut out, hi);
                        i += 6;
                        assert(before + tail =~= out@ + unescaped_from(s@, i as int));
                    }
                },
                None => {
                    out.push(byte_escaped(s[i + 1]));
                    i += 2;
                    assert(before + tail =~= out@ + unescaped_from(s@, i as int));
                },
            }
        } else {
            out.push(b);
            i += 1;
            assert(before + tail =~= out@ + unescaped_from(s@, i as int));
        }
    }
    assert(out@ + unescaped_from(s@, n as int) =~= out@);
    out
}

/// Gives `name` the value `value` in an object.
fn insert_entry(m: &mut Vec<Entry>, name: &[u8], value: Value)
    ensures
        entry_views(final(m)@) == with_entry(entry_views(old(m)@), name@, value@),
{
    let ghost before = m@;
    let ghost views = entry_views(before);
    proof {
        lemma_entry_views(before);
    }
    let n = m.len();
    let mut i: usize = 0;
    while i < n
        invariant
            0 <= i <= n,
            n == m.len(),
            m@ == before,
            before == old(m)@,
            views == entry_views(before),
            views.len() == before.len(),
            forall|j: int| 0 <= j < before.len() ==> (#[trigger] views[j]) == before[j]@,
            entry_position(views, name@, 0) == entry_position(views, name@, i as int),
        decreases n - i,
    {
        if bytes_equal(m[i].name.as_slice(), name) {
            let slot = Entry { name: copied(name), value };
            let ghost added = slot@;
            m.push(slot);
            m.swap_remove(i);
            proof {
                lemma_entry_views(m@);
                assert(entry_views(m@) =~= views.update(i as int, added));
            }
            return ;
        }
        i += 1;
    }
    let slot = Entry { name: copied(name), value };
    let ghost added = slot@;
    m.push(slot);
    proof {
        lemma_entry_views(m@);
        assert(entry_views(m@) =~= views.push(added));
    }
}

/// Reads a span of the document into a value.
fn span_to_value(e: &Element) -> (r: Result<Value, Error>)
    ensures
        value_outcome(r) == span_value(e@),
    decreases span_len(e@), 0nat,
{
    match e {
        Element::String(raw) => {
            if raw.len() >= 2 {
                Ok(Value::String(unescape(&raw[1..raw.len() - 1])))
            } else {
                assert(raw@.subrange(0, 0) =~= unquoted(raw@));
                Ok(Value::String(unescape(&raw[0..0])))
            }
        },
        Element::Number(raw) => Ok(Value::Number(copied(raw))),
        Element::Boolean(raw) => Ok(Value::Boolean(raw.len() > 0 && raw[0] == 0x74)),
        Element::Null(_) => Ok(Value::Null),
        Element::Array(raw) => {
            if raw.len() == 0 {
                let l: Vec<Value> = Vec::new();
                assert(value_views(l@) =~= Seq::<ValueView>::empty());
                Ok(Value::Array(l))
            } else {
                match values_from(&raw[1..raw.len()]) {
                    Ok(l) => Ok(Value::Array(l)),
                    Err(e) => Err(e),
                }
            }
        },
        Element::Object(raw) => {
            if raw.len() == 0 {
                let m: Vec<Entry> = Vec::new();
                assert(entry_views(m@) =~= Seq::<EntryView>::empty());
                Ok(Value::Object(m))
            } else {
                match entries_from(&raw[1..raw.len()]) {
                    Ok(m) => Ok(Value::Object(m)),
                    Err(e) => Err(e),
                }
            }
        },
        Element::Count(n) => Ok(Value::Usize(*n)),
        _ => Ok(Value::Null),
    }
}

/// Reads the elements of an array, from the byte after its opening bracket
/// on, into values.
pub fn values_from(input: &[u8]) -> (r: Result<Vec<Value>, Error>)
    ensures
        values_outcome(r) == array_values(input@, Seq::empty()),
    decreases input.len(), 1nat,
{
    let mut arr: Vec<Value> = Vec::new();
    proof {
        assert(value_views(arr@) =~= Seq::<ValueView>::empty());
    }
    let mut cur = input;
    loop
        invariant
            cur@.len() <= input@.len(),
            array_values(input@, Seq::empty()) == array_values(cur@, value_views(arr@)),
        decreases cur.len(),
    {
        proof {
            lemma_read_one_span(cur@);
        }
        let (element, rest) = match read_one(cur) {
            Err(e) => {
                return Err(e);
            },
            Ok(x) => x,
        };
        match element {
            Some(e) => {
                let ghost before = arr@;
                let v = match span_to_value(&e) {
                    Ok(v) => v,
                    Err(err) => {
                        return Err(err);
                    },
                };
                arr.push(v);
                proof {
                    lemma_value_views(before);
                    lemma_value_views(arr@);
                    assert(value_views(arr@) =~= value_views(before).push(v@));
                }
            },
            None => {
                return Ok(arr);
            },
        }
        cur = rest;
    }
}

/// Reads the members of an object, from the byte after its opening brace
/// on, into entries.
pub fn entries_from(input: &[u8]) -> (r: Result<Vec<Entry>, Error>)
    ensures
        entries_outcome(r) == object_entries(input@, Seq::empty()),
    decreases input.len(), 1nat,
{
    let mut m: Vec<Entry> = Vec::new();
    proof {
        assert(entry_views(m@) =~= Seq::<EntryView>::empty());
    }
    let mut cur = input;
    loop
        invariant
            cur@.len() <= input@.len(),
            object_entries(input@, Seq::empty()) == object_entries(cur@, entry_views(m@)),
        decreases cur.len(),
    {
        proof {
            lemma_read_one_span(cur@);
        }
        let (key, rest) = match read_one(cur) {
            Err(e) => {
                return Err(e);
            },
            Ok(x) => x,
        };
        let raw = match key {
            None => {
                return Ok(m);
            },
            Some(Element::String(raw)) => raw,
            Some(_) => {
                return Err(Error::ObjectKey);
            },
        };
        proof {
            lemma_read_one_span(rest@);
        }
        let (value, after) = match read_one(rest) {
            Err(e) => {
                return Err(e);
            },
            Ok(x) => x,
        };
        match value {
            None => {
                return Ok(m);
            },
            Some(v) => {
                let x = match span_to_value(&v) {
                    Ok(x) => x,
                    Err(err) => {
                        return Err(err);
                    },
                };
                insert_entry(&mut m, &raw[1..raw.len() - 1], x);
            },
        }
        cur = after;
    }
}

/// Turns each element of a list into a value.
fn list_to_values(l: &Vec<Element>) -> (r: Result<Vec<Value>, Error>)
    ensures
        values_outcome(r) == values_of(element_views(l@), 0, Seq::empty()),
    decreases l,
{
    let ghost views = element_views(l@);
    let mut out: Vec<Value> = Vec::new();
    let mut i: usize = 0;
    proof {
        lemma_element_views(l@);
        assert(value_views(out@) =~= Seq::<ValueView>::empty());
    }
    while i < l.len()
        invariant
            0 <= i <= l.len(),
            views == element_views(l@),
            views.len() == l@.len(),
            forall|j: int| 0 <= j < l@.len() ==> (#[trigger] views[j]) == l@[j]@,
            values_of(views, 0, Seq::empty()) == values_of(views, i as int, value_views(out@)),
        decreases l.len() - i,
    {
        let ghost before = out@;
        let v = match l[i].to_value() {
            Ok(v) => v,
            Err(e) => {
                return Err(e);
            },
        };
        out.push(v);
        proof {
            lemma_value_views(before);
            lemma_value_views(out@);
            assert(value_views(out@) =~= value_views(before).push(v@));
        }
        i += 1;
    }
    Ok(out)
}

/// Turns each member of a map into an entry.
fn map_to_entries(m: &Vec<Member>) -> (r: Result<Vec<Entry>, Error>)
    ensures
        entries_outcome(r) == entries_of(member_views(m@), 0, Seq::empty()),
    decreases m,
{
    let ghost views = member_views(m@);
    let mut out: Vec<Entry> = Vec::new();
    let mut i: usize = 0;
    proof {
        lemma_member_views(m@);
        assert(entry_views(out@) =~= Seq::<EntryView>::empty());
    }
    while i < m.len()
        invariant
            0 <= i <= m.len(),
            views == member_views(m@),
            views.len() == m@.len(),
            forall|j: int| 0 <= j < m@.len() ==> (#[trigger] views[j]) == m@[j]@,
            entries_of(views, 0, Seq::empty()) == entries_of(views, i as int, entry_views(out@)),
        decreases m.len() - i,
    {
        let ghost before = out@;
        let value = match m[i].value.to_value() {
            Ok(v) => v,
            Err(e) => {
                return Err(e);
            },
        };
        let name = copied(m[i].name.as_slice());
        let entry = Entry { name, value };
        let ghost added = entry@;
        out.push(entry);
        proof {
            lemma_entry_views(before);
            lemma_entry_views(out@);
            assert(entry_views(out@) =~= entry_views(before).push(added));
        }
        i += 1;
    }
    Ok(out)
}

impl<'a> Element<'a> {
    /// Turns an element into a value that no longer borrows from the
    /// document, reading every array and object in it to its leaves.
    pub fn to_value(&self) -> (r: Result<Value, Error>)
        ensures
            value_outcome(r) == value_of(self@),
        decreases self,
    {
        match self {
            Element::List(l) => match list_to_values(l) {
                Ok(x) => Ok(Value::Array(x)),
                Err(e) => Err(e),
            },
            Element::Mapping(m) => match map_to_entries(m) {
                Ok(x) => Ok(Value::Object(x)),
                Err(e) => Err(e),
            },
            _ => span_to_value(self),
        }
    }
}

} // verus!
