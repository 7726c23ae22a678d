//! Matching of a key or a string against a pattern with wild cards.

use crate::bytes::{BACKSLASH, QUESTION, STAR};
use vstd::prelude::*;

verus! {

/// Whether the pattern `p` from index `i` on matches the text `t` from index
/// `j` on. `*` stands for any run of bytes, `?` for any one byte, a backslash
/// makes the byte after it stand for itself, and every other byte stands for
/// itself.
pub open spec fn matches_from(p: Seq<u8>, i: int, t: Seq<u8>, j: int) -> bool
    decreases p.len() - i, t.len() - j,
{
    if i < 0 || j < 0 {
        false
    } else if i >= p.len() {
        j >= t.len()
    } else if p[i] == STAR {
        matches_from(p, i + 1, t, j) || (j < t.len() && matches_from(p, i, t, j + 1))
    } else if j >= t.len() {
        false
    } else if p[i] == QUESTION {
        matches_from(p, i + 1, t, j + 1)
    } else if p[i] == BACKSLASH && i + 1 < p.len() {
        t[j] == p[i + 1] && matches_from(p, i + 2, t, j + 1)
    } else {
        t[j] == p[i] && matches_from(p, i + 1, t, j + 1)
    }
}

/// Whether the whole text matches the whole pattern.
pub open spec fn wild_matches(pattern: Seq<u8>, text: Seq<u8>) -> bool {
    matches_from(pattern, 0, text, 0)
}

/// Whether a byte has a meaning of its own in a pattern.
pub open spec fn is_special(b: u8) -> bool {
    b == STAR || b == QUESTION || b == BACKSLASH
}

/// Whether no byte of the pattern has a meaning of its own.
pub open spec fn is_plain(p: Seq<u8>) -> bool {
    forall|k: int| 0 <= k < p.len() ==> !is_special(#[trigger] p[k])
}

proof fn lemma_plain_from(p: Seq<u8>, t: Seq<u8>, i: int)
    requires
        is_plain(p),
        0 <= i <= p.len(),
        i <= t.len(),
    ensures
        matches_from(p, i, t, i) <==> (t.len() == p.len() && forall|k: int|
            i <= k < p.len() ==> p[k] == t[k]),
    decreases p.len() - i,
{
    if i < p.len() {
        assert(!is_special(p[i]));
        if i < t.len() {
            lemma_plain_from(p, t, i + 1);
        }
    }
}

/// A pattern without wild cards and backslashes matches itself and nothing
/// else.
pub proof fn lemma_plain_pattern_is_equality(pattern: Seq<u8>, text: Seq<u8>)
    requires
        is_plain(pattern),
    ensures
        wild_matches(pattern, text) <==> pattern == text,
{
    lemma_plain_from(pattern, text, 0);
    if wild_matches(pattern, text) {
        assert(pattern =~= text);
    }
}

/// A lone `*` matches every text, from any index on.
pub proof fn lemma_star_matches_all(t: Seq<u8>, j: int)
    requires
        0 <= j <= t.len(),
    ensures
        matches_from(seq![STAR], 0, t, j),
        j == 0 ==> wild_matches(seq![STAR], t),
    decreases t.len() - j,
{
    let p = seq![STAR];
    if j < t.len() {
        lemma_star_matches_all(t, j + 1);
    } else {
        assert(matches_from(p, 1, t, j));
    }
}

/// Matches the pattern from `start` on against the text from `from` on.
/// Bytes before the next `*` are matched in a loop; the function calls itself
/// only past a `*`, so it goes no deeper than the pattern has stars.
fn match_from(p: &[u8], start: usize, t: &[u8], from: usize) -> (r: bool)
    requires
        start <= p.len(),
        from <= t.len(),
    ensures
        r == matches_from(p@, start as int, t@, from as int),
    decreases p.len() - start,
{
    let mut i: usize = start;
    let mut j: usize = from;
    while i < p.len() && p[i] != STAR
        invariant
            start <= i <= p.len(),
            from <= j <= t.len(),
            matches_from(p@, start as int, t@, from as int) == matches_from(
                p@,
                i as int,
                t@,
                j as int,
            ),
        decreases p.len() - i,
    {
        if j >= t.len() {
            return false;
        }
        let b = p[i];
        if b == QUESTION {
            i += 1;
        } else if b == BACKSLASH && i + 1 < p.len() {
            if t[j] != p[i + 1] {
                return false;
            }
            i += 2;
        } else {
            if t[j] != b {
                return false;
            }
            i += 1;
        }
        j += 1;
    }
    if i >= p.len() {
        return j >= t.len();
    }
    let mut k: usize = j;
    loop
        invariant
            start <= i < p.len(),
            p@[i as int] == STAR,
            j <= k <= t.len(),
            matches_from(p@, start as int, t@, from as int) == matches_from(
                p@,
                i as int,
                t@,
                k as int,
            ),
        decreases t.len() - k,
    {
        if match_from(p, i + 1, t, k) {
            return true;
        }
        if k >= t.len() {
            return false;
        }
        k += 1;
    }
}

/// Tells whether `text` matches `pattern`.
pub fn is_match(pattern: &[u8], text: &[u8]) -> (r: bool)
    ensures
        r == wild_matches(pattern@, text@),
{
    match_from(pattern, 0, text, 0)
}

} // verus!
