//! Scanning of raw bytes: where a string, a container or a literal ends.

use vstd::prelude::*;

verus! {

/// `"`
pub const QUOTE: u8 = 0x22;

/// `\`
pub const BACKSLASH: u8 = 0x5c;

/// `{`
pub const OPEN_BRACE: u8 = 0x7b;

/// `}`
pub const CLOSE_BRACE: u8 = 0x7d;

/// `[`
pub const OPEN_BRACKET: u8 = 0x5b;

/// `]`
pub const CLOSE_BRACKET: u8 = 0x5d;

/// `(`
pub const OPEN_PAREN: u8 = 0x28;

/// `)`
pub const CLOSE_PAREN: u8 = 0x29;

/// `,`
pub const COMMA: u8 = 0x2c;

/// `:`
pub const COLON: u8 = 0x3a;

/// `.`
pub const DOT: u8 = 0x2e;

/// `#`
pub const HASH: u8 = 0x23;

/// `*`
pub const STAR: u8 = 0x2a;

/// `?`
pub const QUESTION: u8 = 0x3f;

/// `-`
pub const MINUS: u8 = 0x2d;

/// The space character.
pub const SPACE: u8 = 0x20;

/// `0`
pub const DIGIT_ZERO: u8 = 0x30;

/// `9`
pub const DIGIT_NINE: u8 = 0x39;

/// `{` or `[`.
pub open spec fn is_opener(b: u8) -> bool {
    b == OPEN_BRACE || b == OPEN_BRACKET
}

/// `}` or `]`.
pub open spec fn is_closer(b: u8) -> bool {
    b == CLOSE_BRACE || b == CLOSE_BRACKET
}

/// Space, tab, line feed or carriage return.
pub open spec fn is_space(b: u8) -> bool {
    b == SPACE || b == 0x09 || b == 0x0a || b == 0x0d
}

/// An ASCII decimal digit.
pub open spec fn is_digit(b: u8) -> bool {
    DIGIT_ZERO <= b <= DIGIT_NINE
}

/// A byte that ends a bare literal: a comma, a closing bracket or white space.
pub open spec fn ends_literal(b: u8) -> bool {
    b == COMMA || is_closer(b) || is_space(b)
}

/// A byte at which a value can begin: a quote, an opening bracket, the first
/// letter of `true`, `false` or `null`, a minus sign or a digit.
pub open spec fn starts_value(b: u8) -> bool {
    b == QUOTE || is_opener(b) || b == 0x74 || b == 0x66 || b == 0x6e || b == MINUS || is_digit(b)
}

/// The index just past the closing quote of a string whose content is being
/// scanned at `i`, or `None` when the input ends first. A backslash hides the
/// byte that follows it.
pub open spec fn string_end(s: Seq<u8>, i: int) -> Option<int>
    decreases s.len() - i,
{
    if i < 0 || i >= s.len() {
        None
    } else if s[i] == QUOTE {
        Some(i + 1)
    } else if s[i] == BACKSLASH {
        if i + 1 < s.len() {
            string_end(s, i + 2)
        } else {
            None
        }
    } else {
        string_end(s, i + 1)
    }
}

/// The index just past the bracket that closes a container, scanning its
/// inside at `i` with `depth` brackets open, or `None` when the input ends
/// first. Brackets inside strings do not count, and a backslash hides the
/// byte that follows it.
pub open spec fn compound_end(s: Seq<u8>, i: int, depth: nat) -> Option<int>
    decreases s.len() - i,
{
    if i < 0 || i >= s.len() {
        None
    } else if s[i] == QUOTE {
        match string_end(s, i + 1) {
            Some(e) => if i < e <= s.len() {
                compound_end(s, e, depth)
            } else {
                None
            },
            None => None,
        }
    } else if s[i] == BACKSLASH {
        if i + 1 < s.len() {
            compound_end(s, i + 2, depth)
        } else {
            None
        }
    } else if is_opener(s[i]) {
        compound_end(s, i + 1, depth + 1)
    } else if is_closer(s[i]) {
        if depth <= 1 {
            Some(i + 1)
        } else {
            compound_end(s, i + 1, (depth - 1) as nat)
        }
    } else {
        compound_end(s, i + 1, depth)
    }
}

/// The first index at or after `i` that holds a byte ending a bare literal,
/// or the length of the input.
pub open spec fn literal_end(s: Seq<u8>, i: int) -> int
    decreases s.len() - i,
{
    if i < 0 || i >= s.len() {
        s.len() as int
    } else if ends_literal(s[i]) {
        i
    } else {
        literal_end(s, i + 1)
    }
}

/// The first index at or after `i` that holds a byte starting a value or
/// closing a container, or the length of the input.
pub open spec fn next_mark(s: Seq<u8>, i: int) -> int
    decreases s.len() - i,
{
    if i < 0 || i >= s.len() {
        s.len() as int
    } else if starts_value(s[i]) || is_closer(s[i]) {
        i
    } else {
        next_mark(s, i + 1)
    }
}

/// A string ends after the index it is scanned from, within the input, and
/// on a quote.
pub proof fn lemma_string_end_bounds(s: Seq<u8>, i: int)
    requires
        0 <= i,
    ensures
        string_end(s, i) matches Some(e) ==> i < e <= s.len() && s[e - 1] == QUOTE,
    decreases s.len() - i,
{
    if i < s.len() && s[i] != QUOTE {
        if s[i] == BACKSLASH {
            if i + 1 < s.len() {
                lemma_string_end_bounds(s, i + 2);
            }
        } else {
            lemma_string_end_bounds(s, i + 1);
        }
    }
}

/// A container ends after the index it is scanned from, within the input,
/// and on a closing bracket.
pub proof fn lemma_compound_end_bounds(s: Seq<u8>, i: int, depth: nat)
    requires
        0 <= i,
    ensures
        compound_end(s, i, depth) matches Some(e) ==> i < e <= s.len() && is_closer(s[e - 1]),
    decreases s.len() - i,
{
    if i < s.len() {
        if s[i] == QUOTE {
            lemma_string_end_bounds(s, i + 1);
            match string_end(s, i + 1) {
                Some(e) => {
                    lemma_compound_end_bounds(s, e, depth);
                },
                None => {},
            }
        } else if s[i] == BACKSLASH {
            if i + 1 < s.len() {
                lemma_compound_end_bounds(s, i + 2, depth);
            }
        } else if is_opener(s[i]) {
            lemma_compound_end_bounds(s, i + 1, depth + 1);
        } else if is_closer(s[i]) {
            if depth > 1 {
                lemma_compound_end_bounds(s, i + 1, (depth - 1) as nat);
            }
        } else {
            lemma_compound_end_bounds(s, i + 1, depth);
        }
    }
}

/// A bare literal ends within the input, on the first byte that ends one.
pub proof fn lemma_literal_end_bounds(s: Seq<u8>, i: int)
    requires
        0 <= i <= s.len(),
    ensures
        i <= literal_end(s, i) <= s.len(),
        literal_end(s, i) < s.len() ==> ends_literal(s[literal_end(s, i)]),
        forall|j: int| i <= j < literal_end(s, i) ==> !ends_literal(#[trigger] s[j]),
    decreases s.len() - i,
{
    if i < s.len() && !ends_literal(s[i]) {
        lemma_literal_end_bounds(s, i + 1);
    }
}

/// The next mark lies within the input and is the first byte that starts a
/// value or closes a container.
pub proof fn lemma_next_mark_bounds(s: Seq<u8>, i: int)
    requires
        0 <= i <= s.len(),
    ensures
        i <= next_mark(s, i) <= s.len(),
        next_mark(s, i) < s.len() ==> starts_value(s[next_mark(s, i)]) || is_closer(
            s[next_mark(s, i)],
        ),
        forall|j: int|
            i <= j < next_mark(s, i) ==> !starts_value(#[trigger] s[j]) && !is_closer(s[j]),
    decreases s.len() - i,
{
    if i < s.len() && !(starts_value(s[i]) || is_closer(s[i])) {
        lemma_next_mark_bounds(s, i + 1);
    }
}

/// Tells whether a byte is `{` or `[`.
pub fn byte_is_opener(b: u8) -> (r: bool)
    ensures
        r == is_opener(b),
{
    b == OPEN_BRACE || b == OPEN_BRACKET
}

/// Tells whether a byte is `}` or `]`.
pub fn byte_is_closer(b: u8) -> (r: bool)
    ensures
        r == is_closer(b),
{
    b == CLOSE_BRACE || b == CLOSE_BRACKET
}

/// Tells whether a byte is a decimal digit.
pub fn byte_is_digit(b: u8) -> (r: bool)
    ensures
        r == is_digit(b),
{
    DIGIT_ZERO <= b && b <= DIGIT_NINE
}

/// Tells whether a byte ends a bare literal.
pub fn byte_ends_literal(b: u8) -> (r: bool)
    ensures
        r == ends_literal(b),
{
    b == COMMA || byte_is_closer(b) || b == SPACE || b == 0x09 || b == 0x0a || b == 0x0d
}

/// Tells whether a value can begin at a byte.
pub fn byte_starts_value(b: u8) -> (r: bool)
    ensures
        r == starts_value(b),
{
    b == QUOTE || byte_is_opener(b) || b == 0x74 || b == 0x66 || b == 0x6e || b == MINUS
        || byte_is_digit(b)
}

/// Finds the end of the string whose content starts at `start`.
pub fn scan_string(s: &[u8], start: usize) -> (r: Option<usize>)
    ensures
        match string_end(s@, start as int) {
            Some(e) => r == Some(e as usize) && start < e <= s.len(),
            None => r.is_none(),
        },
{
    let mut i: usize = start;
    while i < s.len()
        invariant
            start <= i,
            string_end(s@, start as int) == string_end(s@, i as int),
        decreases s.len() - i,
    {
        let b = s[i];
        if b == QUOTE {
            return Some(i + 1);
        }
        if b == BACKSLASH {
            if i + 1 >= s.len() {
                return None;
            }
            i += 2;
        } else {
            i += 1;
        }
    }
    None
}

/// Finds the end of the container whose inside starts at `start`.
pub fn scan_compound(s: &[u8], start: usize) -> (r: Option<usize>)
    ensures
        match compound_end(s@, start as int, 1) {
            Some(e) => r == Some(e as usize) && start < e <= s.len(),
            None => r.is_none(),
        },
{
    let mut i: usize = start;
    let mut nested: usize = 0;
    while i < s.len()
        invariant
            start <= i,
            nested <= i - start,
            compound_end(s@, start as int, 1) == compound_end(s@, i as int, (nested + 1) as nat),
        decreases s.len() - i,
    {
        let b = s[i];
        if b == QUOTE {
            proof {
                lemma_string_end_bounds(s@, i + 1);
            }
            match scan_string(s, i + 1) {
                Some(e) => {
                    i = e;
                },
                None => {
                    return None;
                },
            }
        } else if b == BACKSLASH {
            if i + 1 >= s.len() {
                return None;
            }
            i += 2;
        } else if byte_is_opener(b) {
            nested += 1;
            i += 1;
        } else if byte_is_closer(b) {
            if nested == 0 {
                return Some(i + 1);
            }
            nested -= 1;
            i += 1;
        } else {
            i += 1;
        }
    }
    None
}

/// Finds the end of the bare literal that starts at `start`.
pub fn scan_literal(s: &[u8], start: usize) -> (r: usize)
    ensures
        r == literal_end(s@, start as int),
        r <= s.len(),
        start <= s.len() ==> start <= r,
{
    if start >= s.len() {
        return s.len();
    }
    let mut i: usize = start;
    while i < s.len() && !byte_ends_literal(s[i])
        invariant
            start <= i <= s.len(),
            literal_end(s@, start as int) == literal_end(s@, i as int),
        decreases s.len() - i,
    {
        i += 1;
    }
    i
}

/// Finds the next byte that starts a value or closes a container.
pub fn scan_mark(s: &[u8], start: usize) -> (r: usize)
    ensures
        r == next_mark(s@, start as int),
        r <= s.len(),
        start <= s.len() ==> start <= r,
{
    if start >= s.len() {
        return s.len();
    }
    let mut i: usize = start;
    while i < s.len() && !(byte_starts_value(s[i]) || byte_is_closer(s[i]))
        invariant
            start <= i <= s.len(),
            next_mark(s@, start as int) == next_mark(s@, i as int),
        decreases s.len() - i,
    {
        i += 1;
    }
    i
}

/// Copies a text.
pub fn copied(s: &[u8]) -> (r: Vec<u8>)
    ensures
        r@ == s@,
{
    let mut out: Vec<u8> = Vec::new();
    let mut i: usize = 0;
    while i < s.len()
        invariant
            0 <= i <= s.len(),
            out@ == s@.take(i as int),
        decreases s.len() - i,
    {
        out.push(s[i]);
        i += 1;
        assert(out@ =~= s@.take(i as int));
    }
    assert(s@.take(s.len() as int) =~= s@);
    out
}

} // verus!
