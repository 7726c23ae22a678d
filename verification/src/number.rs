//! Decimal numerals: array indices, and the numbers that a filter compares.

use crate::bytes::{byte_is_digit, is_digit, DIGIT_ZERO, DOT, MINUS};
use vstd::prelude::*;

verus! {

/// The number of digits that a numeral may have on either side of its point
/// for a filter to compare it.
pub const SCALE_DIGITS: usize = 18;

/// Ten to the power `SCALE_DIGITS`.
pub const SCALE: i128 = 1_000_000_000_000_000_000;

/// Whether every byte is a decimal digit.
pub open spec fn all_digits(s: Seq<u8>) -> bool {
    forall|k: int| 0 <= k < s.len() ==> is_digit(#[trigger] s[k])
}

/// The number that a run of decimal digits writes.
pub open spec fn digits_value(s: Seq<u8>) -> nat
    decreases s.len(),
{
    if s.len() == 0 {
        0
    } else {
        digits_value(s.drop_last()) * 10 + (s.last() - DIGIT_ZERO) as nat
    }
}

/// Ten to the power `n`.
pub open spec fn pow10(n: nat) -> nat
    decreases n,
{
    if n == 0 {
        1
    } else {
        10 * pow10((n - 1) as nat)
    }
}

/// The first index at or after `i` that holds no digit, or the length of the
/// input.
pub open spec fn digits_end(s: Seq<u8>, i: int) -> int
    decreases s.len() - i,
{
    if i < 0 || i >= s.len() {
        s.len() as int
    } else if !is_digit(s[i]) {
        i
    } else {
        digits_end(s, i + 1)
    }
}

/// The index that a path segment names: the value of a segment made of
/// digits only.
pub open spec fn index_value(s: Seq<u8>) -> Option<nat> {
    if s.len() > 0 && all_digits(s) {
        Some(digits_value(s))
    } else {
        None
    }
}

/// The value of a numeral of the form `-?D+(.D+)?` with at most
/// `SCALE_DIGITS` digits on either side of the point, multiplied by `SCALE`.
/// Any other text has no value.
pub open spec fn decimal_value(s: Seq<u8>) -> Option<int> {
    let negative = s.len() > 0 && s[0] == MINUS;
    let a: int = if negative { 1 } else { 0 };
    let b = digits_end(s, a);
    if !(1 <= b - a <= SCALE_DIGITS) {
        None
    } else {
        let whole = digits_value(s.subrange(a, b)) * pow10(SCALE_DIGITS as nat);
        if b == s.len() {
            Some(if negative { -whole } else { whole as int })
        } else if s[b] == DOT && digits_end(s, b + 1) == s.len() && 1 <= s.len() - (b + 1)
            <= SCALE_DIGITS {
            let k = s.len() - (b + 1);
            let part = digits_value(s.subrange(b + 1, s.len() as int)) * pow10(
                (SCALE_DIGITS - k) as nat,
            );
            Some(if negative { -(whole + part) } else { (whole + part) as int })
        } else {
            None
        }
    }
}

/// Each power of ten is ten times the one before, and none is zero.
pub proof fn lemma_pow10_step(n: nat)
    ensures
        pow10(n + 1) == 10 * pow10(n),
        pow10(n) >= 1,
    decreases n,
{
    if n > 0 {
        lemma_pow10_step((n - 1) as nat);
    }
}

/// `SCALE` is ten to the power `SCALE_DIGITS`, and no lower power exceeds
/// it.
pub proof fn lemma_pow10_scale()
    ensures
        pow10(SCALE_DIGITS as nat) == SCALE,
        forall|k: nat| k <= SCALE_DIGITS ==> 1 <= #[trigger] pow10(k) <= SCALE,
{
    reveal_with_fuel(pow10, 20);
    assert(pow10(18) == 1_000_000_000_000_000_000);
    assert forall|k: nat| k <= SCALE_DIGITS implies 1 <= #[trigger] pow10(k) <= SCALE by {
        assert(k == 0 || k == 1 || k == 2 || k == 3 || k == 4 || k == 5 || k == 6 || k == 7 || k
            == 8 || k == 9 || k == 10 || k == 11 || k == 12 || k == 13 || k == 14 || k == 15 || k
            == 16 || k == 17 || k == 18);
    }
}

/// A run of `n` digits writes a number below ten to the `n`.
pub proof fn lemma_digits_value_bound(s: Seq<u8>)
    requires
        all_digits(s),
    ensures
        digits_value(s) < pow10(s.len()),
    decreases s.len(),
{
    if s.len() > 0 {
        let t = s.drop_last();
        assert forall|k: int| 0 <= k < t.len() implies is_digit(#[trigger] t[k]) by {
            assert(t[k] == s[k]);
        }
        lemma_digits_value_bound(t);
        lemma_pow10_step(t.len());
        assert(is_digit(s[s.len() - 1]));
    }
}

/// Dropping digits from the end of a run never gives a larger number.
pub proof fn lemma_digits_value_prefix(s: Seq<u8>, k: int)
    requires
        0 <= k <= s.len(),
    ensures
        digits_value(s.take(k)) <= digits_value(s),
    decreases s.len() - k,
{
    if k < s.len() {
        lemma_digits_value_prefix(s, k + 1);
        assert(s.take(k + 1).drop_last() =~= s.take(k));
    } else {
        assert(s.take(k) =~= s);
    }
}

/// A run of digits ends within the input, on the first byte that is no
/// digit, and holds digits only.
pub proof fn lemma_digits_end_bounds(s: Seq<u8>, i: int)
    requires
        0 <= i <= s.len(),
    ensures
        i <= digits_end(s, i) <= s.len(),
        all_digits(s.subrange(i, digits_end(s, i))),
        digits_end(s, i) < s.len() ==> !is_digit(s[digits_end(s, i)]),
    decreases s.len() - i,
{
    if i < s.len() && is_digit(s[i]) {
        lemma_digits_end_bounds(s, i + 1);
        let e = digits_end(s, i);
        assert forall|k: int| 0 <= k < e - i implies is_digit(#[trigger] s.subrange(i, e)[k]) by {
            if k > 0 {
                assert(s.subrange(i, e)[k] == s.subrange(i + 1, e)[k - 1]);
            }
        }
    }
}

/// Reads a path segment as an array index.
pub fn parse_index(part: &[u8]) -> (r: Option<usize>)
    ensures
        r == match index_value(part@) {
            Some(v) => if v <= usize::MAX {
                Some(v as usize)
            } else {
                None
            },
            None => None,
        },
{
    let n = part.len();
    if n == 0 {
        return None;
    }
    let mut acc: usize = 0;
    let mut i: usize = 0;
    while i < n
        invariant
            0 <= i <= n,
            n == part.len(),
            all_digits(part@.take(i as int)),
            acc == digits_value(part@.take(i as int)),
        decreases n - i,
    {
        let b = part[i];
        if !byte_is_digit(b) {
            return None;
        }
        proof {
            let t = part@.take(i + 1);
            assert(t.drop_last() =~= part@.take(i as int));
            assert(t.last() == b);
            assert forall|k: int| 0 <= k < t.len() implies is_digit(#[trigger] t[k]) by {
                if k < i {
                    assert(part@.take(i as int)[k] == t[k]);
                }
            }
            lemma_digits_value_prefix(part@, i + 1);
        }
        let next = match acc.checked_mul(10) {
            Some(m) => m.checked_add((b - DIGIT_ZERO) as usize),
            None => None,
        };
        match next {
            Some(v) => {
                acc = v;
            },
            None => {
                return None;
            },
        }
        i += 1;
    }
    assert(part@.take(n as int) =~= part@);
    Some(acc)
}

/// Reads the run of digits that starts at `start`: where it ends, and the
/// number it writes if it has at most `SCALE_DIGITS` digits.
fn read_digits(s: &[u8], start: usize) -> (r: (usize, u64))
    requires
        start <= s.len(),
    ensures
        r.0 == digits_end(s@, start as int),
        start <= r.0 <= s.len(),
        r.0 - start <= SCALE_DIGITS ==> r.1 == digits_value(s@.subrange(start as int, r.0 as int))
            && r.1 < pow10((r.0 - start) as nat),
{
    let n = s.len();
    let mut i: usize = start;
    let mut v: u64 = 0;
    proof {
        lemma_pow10_scale();
    }
    while i < n && byte_is_digit(s[i])
        invariant
            start <= i <= n,
            n == s.len(),
            digits_end(s@, start as int) == digits_end(s@, i as int),
            all_digits(s@.subrange(start as int, i as int)),
            i - start <= SCALE_DIGITS ==> v == digits_value(s@.subrange(start as int, i as int))
                && v < pow10((i - start) as nat),
            forall|k: nat| k <= SCALE_DIGITS ==> 1 <= #[trigger] pow10(k) <= SCALE,
        decreases n - i,
    {
        proof {
            let t = s@.subrange(start as int, i + 1);
            assert(t.drop_last() =~= s@.subrange(start as int, i as int));
            assert(t.last() == s[i as int]);
            assert forall|k: int| 0 <= k < t.len() implies is_digit(#[trigger] t[k]) by {
                if k < i - start {
                    assert(s@.subrange(start as int, i as int)[k] == t[k]);
                }
            }
            lemma_digits_value_bound(t);
        }
        if i - start < SCALE_DIGITS {
            v = v * 10 + (s[i] - DIGIT_ZERO) as u64;
        }
        i += 1;
    }
    (i, v)
}

/// Reads a numeral as a filter compares it.
pub fn parse_decimal(s: &[u8]) -> (r: Option<i128>)
    ensures
        match decimal_value(s@) {
            Some(v) => r == Some(v as i128) && -2 * SCALE * SCALE < v < 2 * SCALE * SCALE,
            None => r.is_none(),
        },
{
    let n = s.len();
    let negative = n > 0 && s[0] == MINUS;
    let a: usize = if negative { 1 } else { 0 };
    let (b, whole_digits) = read_digits(s, a);
    if b == a || b - a > SCALE_DIGITS {
        return None;
    }
    proof {
        lemma_pow10_scale();
    }
    let whole: i128 = (whole_digits as i128) * SCALE;
    if b == n {
        return Some(if negative { -whole } else { whole });
    }
    if s[b] != DOT {
        return None;
    }
    let (c, part_digits) = read_digits(s, b + 1);
    if c != n || c == b + 1 || c - (b + 1) > SCALE_DIGITS {
        return None;
    }
    let k: usize = c - (b + 1);
    let mut part: i128 = part_digits as i128;
    let mut j: usize = k;
    while j < SCALE_DIGITS
        invariant
            k <= j <= SCALE_DIGITS,
            part == part_digits * pow10((j - k) as nat),
            part_digits < pow10(k as nat),
            0 <= part < pow10(j as nat),
            forall|k: nat| k <= SCALE_DIGITS ==> 1 <= #[trigger] pow10(k) <= SCALE,
        decreases SCALE_DIGITS - j,
    {
        proof {
            lemma_pow10_step((j - k) as nat);
            lemma_pow10_step(j as nat);
            assert(part_digits * (10 * pow10((j - k) as nat)) == 10 * (part_digits * pow10(
                (j - k) as nat,
            ))) by (nonlinear_arith);
        }
        part = part * 10;
        j += 1;
    }
    let magnitude: i128 = whole + part;
    Some(if negative { -magnitude } else { magnitude })
}

/// A number written in decimal digits, without leading zeros.
pub open spec fn decimal_text(n: nat) -> Seq<u8>
    decreases n,
{
    if n < 10 {
        seq![(DIGIT_ZERO + n) as u8]
    } else {
        decimal_text(n / 10).push((DIGIT_ZERO + n % 10) as u8)
    }
}

/// The decimal text of a number is made of digits and writes that number:
/// read as a path segment, it is the index it was written from.
pub proof fn lemma_decimal_text_value(n: nat)
    ensures
        decimal_text(n).len() > 0,
        all_digits(decimal_text(n)),
        index_value(decimal_text(n)) == Some(n),
    decreases n,
{
    let t = decimal_text(n);
    if n < 10 {
        assert(t.drop_last() =~= Seq::<u8>::empty());
        assert(digits_value(Seq::<u8>::empty()) == 0);
        assert(digits_value(t) == n);
    } else {
        lemma_decimal_text_value(n / 10);
        let h = decimal_text(n / 10);
        assert(t.drop_last() =~= h);
        assert forall|k: int| 0 <= k < t.len() implies is_digit(#[trigger] t[k]) by {
            if k < h.len() {
                assert(t[k] == h[k]);
            }
        }
        assert(digits_value(t) == digits_value(h) * 10 + n % 10);
    }
}

/// Writes a position in decimal digits.
pub fn index_name(n: usize) -> (r: Vec<u8>)
    ensures
        r@ == decimal_text(n as nat),
    decreases n,
{
    if n < 10 {
        let mut v: Vec<u8> = Vec::new();
        v.push(DIGIT_ZERO + n as u8);
        assert(v@ =~= decimal_text(n as nat));
        v
    } else {
        let mut v = index_name(n / 10);
        v.push(DIGIT_ZERO + (n % 10) as u8);
        v
    }
}

} // verus!
