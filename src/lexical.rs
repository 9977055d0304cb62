//! Numeric literals of the assembly language, over raw bytes.
use vstd::prelude::*;

verus! {

/// ASCII codes of the bytes the grammar names.
pub const ZERO: u8 = 48;
pub const NINE: u8 = 57;
pub const POINT: u8 = 46;
pub const MINUS: u8 = 45;
pub const PLUS: u8 = 43;
pub const LOWER_E: u8 = 101;
pub const UPPER_E: u8 = 69;
pub const SPACE: u8 = 32;
pub const NEWLINE: u8 = 10;

pub open spec fn is_digit(b: u8) -> bool {
    ZERO <= b <= NINE
}

/// One or more decimal digits and nothing else.
pub open spec fn all_digits(s: Seq<u8>) -> bool {
    s.len() > 0 && forall|i: int| 0 <= i < s.len() ==> is_digit(#[trigger] s[i])
}

/// The number that a run of decimal digits writes.
pub open spec fn digits_value(s: Seq<u8>) -> nat
    decreases s.len(),
{
    if s.len() == 0 {
        0
    } else {
        digits_value(s.drop_last()) * 10 + (s.last() - ZERO) as nat
    }
}

/// An unsigned integer literal whose value fits in a `usize`.
pub open spec fn is_uint_literal(s: Seq<u8>) -> bool {
    all_digits(s) && digits_value(s) <= usize::MAX
}

/// Digits, then optionally a point and more digits.
pub open spec fn is_mantissa(s: Seq<u8>) -> bool {
    all_digits(s) || exists|k: int|
        0 < k < s.len() && #[trigger] s[k] == POINT && all_digits(s.subrange(0, k)) && all_digits(
            s.subrange(k + 1, s.len() as int),
        )
}

/// Digits with an optional leading `+` or `-`.
pub open spec fn is_exponent(s: Seq<u8>) -> bool {
    all_digits(s) || (s.len() > 0 && (s[0] == PLUS || s[0] == MINUS) && all_digits(
        s.subrange(1, s.len() as int),
    ))
}

/// A mantissa, then optionally `e` or `E` and an exponent.
pub open spec fn is_unsigned_float(s: Seq<u8>) -> bool {
    is_mantissa(s) || exists|k: int|
        0 < k < s.len() && (#[trigger] s[k] == LOWER_E || s[k] == UPPER_E) && is_mantissa(
            s.subrange(0, k),
        ) && is_exponent(s.subrange(k + 1, s.len() as int))
}

/// `["-"] Digit+ ["." Digit+] [("e"|"E") ["-"|"+"] Digit+]`
pub open spec fn is_float_literal(s: Seq<u8>) -> bool {
    if s.len() > 0 && s[0] == MINUS {
        is_unsigned_float(s.subrange(1, s.len() as int))
    } else {
        is_unsigned_float(s)
    }
}

/// The first position in `lo..hi` that holds `x` or `y`, or `hi` if none does.
pub(crate) fn find_either(s: &[u8], lo: usize, hi: usize, x: u8, y: u8) -> (j: usize)
    requires
        lo <= hi <= s@.len(),
    ensures
        lo <= j <= hi,
        forall|k: int| lo <= k < j ==> s@[k] != x && s@[k] != y,
        j < hi ==> (s@[j as int] == x || s@[j as int] == y),
{
    let mut j: usize = lo;
    while j < hi && s[j] != x && s[j] != y
        invariant
            lo <= j <= hi <= s@.len(),
            forall|k: int| lo <= k < j ==> s@[k] != x && s@[k] != y,
        decreases hi - j,
    {
        j = j + 1;
    }
    j
}

/// Whether `s[lo..hi]` is one or more decimal digits.
pub fn check_digits(s: &[u8], lo: usize, hi: usize) -> (r: bool)
    requires
        lo <= hi <= s@.len(),
    ensures
        r == all_digits(s@.subrange(lo as int, hi as int)),
{
    let mut j: usize = lo;
    while j < hi && ZERO <= s[j] && s[j] <= NINE
        invariant
            lo <= j <= hi <= s@.len(),
            forall|k: int| lo <= k < j ==> is_digit(#[trigger] s@[k]),
        decreases hi - j,
    {
        j = j + 1;
    }
    let t = Ghost(s@.subrange(lo as int, hi as int));
    if j < hi {
        assert(!is_digit(t@[j - lo]));
    }
    lo < j && j == hi
}

/// Whether `s[lo..hi]` is a mantissa: digits, then optionally a point and digits.
fn check_mantissa(s: &[u8], lo: usize, hi: usize) -> (r: bool)
    requires
        lo <= hi <= s@.len(),
    ensures
        r == is_mantissa(s@.subrange(lo as int, hi as int)),
{
    let t = Ghost(s@.subrange(lo as int, hi as int));
    let q = find_either(s, lo, hi, POINT, POINT);
    if q == hi {
        let r = check_digits(s, lo, hi);
        assert forall|k: int|
            0 < k < t@.len() && #[trigger] t@[k] == POINT implies false by {
            assert(t@[k] == s@[lo + k]);
        }
        r
    } else {
        assert(t@[q - lo] == POINT);
        assert(!is_digit(t@[q - lo]));
        let a = check_digits(s, lo, q);
        let b = check_digits(s, q + 1, hi);
        assert(t@.subrange(0, q - lo) =~= s@.subrange(lo as int, q as int));
        assert(t@.subrange(q - lo + 1, t@.len() as int) =~= s@.subrange(q + 1, hi as int));
        assert forall|k: int|
            0 < k < t@.len() && #[trigger] t@[k] == POINT && all_digits(t@.subrange(0, k))
            implies k == q - lo by {
            if k > q - lo {
                assert(t@.subrange(0, k)[q - lo] == t@[q - lo]);
            }
            if k < q - lo {
                assert(t@[k] == s@[lo + k]);
            }
        }
        a && b
    }
}

/// Whether `s[lo..hi]` is an exponent: an optional sign, then digits.
fn check_exponent(s: &[u8], lo: usize, hi: usize) -> (r: bool)
    requires
        lo <= hi <= s@.len(),
    ensures
        r == is_exponent(s@.subrange(lo as int, hi as int)),
{
    let t = Ghost(s@.subrange(lo as int, hi as int));
    if lo < hi && (s[lo] == PLUS || s[lo] == MINUS) {
        assert(t@.subrange(1, t@.len() as int) =~= s@.subrange(lo + 1, hi as int));
        assert(!is_digit(t@[0]));
        check_digits(s, lo + 1, hi)
    } else {
        check_digits(s, lo, hi)
    }
}

/// Whether `s[lo..hi]` is a floating literal without its sign.
fn check_unsigned_float(s: &[u8], lo: usize, hi: usize) -> (r: bool)
    requires
        lo <= hi <= s@.len(),
    ensures
        r == is_unsigned_float(s@.subrange(lo as int, hi as int)),
{
    let t = Ghost(s@.subrange(lo as int, hi as int));
    let p = find_either(s, lo, hi, LOWER_E, UPPER_E);
    let m = check_mantissa(s, lo, p);
    assert(t@.subrange(0, p - lo) =~= s@.subrange(lo as int, p as int));
    assert forall|k: int|
        0 < k < t@.len() && (#[trigger] t@[k] == LOWER_E || t@[k] == UPPER_E) && is_mantissa(
            t@.subrange(0, k),
        ) implies k == p - lo by {
        assert(t@[k] == s@[lo + k]);
        if k > p - lo {
            assert(t@.subrange(0, k)[p - lo] == s@[p as int]);
            lemma_mantissa_has_no_exponent_mark(t@.subrange(0, k), p - lo);
        }
    }
    if p == hi {
        assert(t@ =~= s@.subrange(lo as int, p as int));
        m
    } else {
        let e = check_exponent(s, p + 1, hi);
        assert(t@.subrange(p - lo + 1, t@.len() as int) =~= s@.subrange(p + 1, hi as int));
        proof {
            assert(t@[p - lo] == s@[p as int]);
            if is_mantissa(t@) {
                lemma_mantissa_has_no_exponent_mark(t@, p - lo);
            }
        }
        if m && e {
            assert(t@[p - lo] == s@[p as int]);
        }
        m && e
    }
}

/// No byte of a mantissa is `e` or `E`.
proof fn lemma_mantissa_has_no_exponent_mark(s: Seq<u8>, i: int)
    requires
        is_mantissa(s),
        0 <= i < s.len(),
    ensures
        s[i] != LOWER_E && s[i] != UPPER_E,
{
    if !all_digits(s) {
        let k = choose|k: int|
            0 < k < s.len() && #[trigger] s[k] == POINT && all_digits(s.subrange(0, k))
                && all_digits(s.subrange(k + 1, s.len() as int));
        if i < k {
            assert(s.subrange(0, k)[i] == s[i]);
        } else if i > k {
            assert(s.subrange(k + 1, s.len() as int)[i - k - 1] == s[i]);
        }
    } else {
        assert(is_digit(s[i]));
    }
}

/// Whether `s[lo..hi]` is a floating literal, as the operand of `psh` is written.
pub fn check_float(s: &[u8], lo: usize, hi: usize) -> (r: bool)
    requires
        lo <= hi <= s@.len(),
    ensures
        r == is_float_literal(s@.subrange(lo as int, hi as int)),
{
    let t = Ghost(s@.subrange(lo as int, hi as int));
    if lo < hi && s[lo] == MINUS {
        assert(t@.subrange(1, t@.len() as int) =~= s@.subrange(lo + 1, hi as int));
        check_unsigned_float(s, lo + 1, hi)
    } else {
        check_unsigned_float(s, lo, hi)
    }
}

/// A prefix of a run of digits writes no larger a number than the whole run.
proof fn lemma_digits_value_prefix(s: Seq<u8>, i: int)
    requires
        0 <= i <= s.len(),
    ensures
        digits_value(s.subrange(0, i)) <= digits_value(s),
    decreases s.len(),
{
    if i < s.len() {
        lemma_digits_value_prefix(s.drop_last(), i);
        assert(s.drop_last().subrange(0, i) =~= s.subrange(0, i));
    } else {
        assert(s.subrange(0, i) =~= s);
    }
}

/// The value of the unsigned integer literal `s[lo..hi]`; `None` where those
/// bytes are not one or write a number beyond `usize::MAX`.
pub fn parse_uint(s: &[u8], lo: usize, hi: usize) -> (r: Option<usize>)
    requires
        lo <= hi <= s@.len(),
    ensures
        match r {
            Some(v) => is_uint_literal(s@.subrange(lo as int, hi as int)) && v == digits_value(
                s@.subrange(lo as int, hi as int),
            ),
            None => !is_uint_literal(s@.subrange(lo as int, hi as int)),
        },
{
    let t = Ghost(s@.subrange(lo as int, hi as int));
    if !check_digits(s, lo, hi) {
        return None;
    }
    let mut v: usize = 0;
    let mut j: usize = lo;
    while j < hi
        invariant
            lo <= j <= hi <= s@.len(),
            t@ == s@.subrange(lo as int, hi as int),
            all_digits(t@),
            v == digits_value(s@.subrange(lo as int, j as int)),
        decreases hi - j,
    {
        assert(is_digit(t@[j - lo]));
        let d: usize = (s[j] - ZERO) as usize;
        let ghost next = s@.subrange(lo as int, j + 1);
        assert(next.drop_last() =~= s@.subrange(lo as int, j as int));
        if v > (usize::MAX - d) / 10 {
            proof {
                assert(v * 10 + d > usize::MAX) by (nonlinear_arith)
                    requires
                        v > (usize::MAX - d) / 10,
                        d <= 9,
                ;
                assert(t@.subrange(0, j + 1 - lo) =~= next);
                lemma_digits_value_prefix(t@, j + 1 - lo);
            }
            return None;
        }
        assert(v * 10 + d <= usize::MAX) by (nonlinear_arith)
            requires
                v <= (usize::MAX - d) / 10,
                d <= 9,
        ;
        v = v * 10 + d;
        j = j + 1;
    }
    assert(s@.subrange(lo as int, j as int) =~= t@);
    Some(v)
}

/// The bytes that can occur in a numeric literal.
pub open spec fn is_literal_byte(b: u8) -> bool {
    is_digit(b) || b == POINT || b == PLUS || b == MINUS || b == LOWER_E || b == UPPER_E
}

proof fn lemma_digits_bytes(s: Seq<u8>, lo: int, hi: int)
    requires
        0 <= lo <= hi <= s.len(),
        all_digits(s.subrange(lo, hi)),
    ensures
        forall|i: int| lo <= i < hi ==> is_literal_byte(#[trigger] s[i]),
{
    assert forall|i: int| lo <= i < hi implies is_literal_byte(#[trigger] s[i]) by {
        assert(s.subrange(lo, hi)[i - lo] == s[i]);
    }
}

proof fn lemma_mantissa_bytes(s: Seq<u8>, lo: int, hi: int)
    requires
        0 <= lo <= hi <= s.len(),
        is_mantissa(s.subrange(lo, hi)),
    ensures
        forall|i: int| lo <= i < hi ==> is_literal_byte(#[trigger] s[i]),
{
    let t = s.subrange(lo, hi);
    if all_digits(t) {
        lemma_digits_bytes(s, lo, hi);
    } else {
        let k = choose|k: int|
            0 < k < t.len() && #[trigger] t[k] == POINT && all_digits(t.subrange(0, k))
                && all_digits(t.subrange(k + 1, t.len() as int));
        assert(t.subrange(0, k) =~= s.subrange(lo, lo + k));
        assert(t.subrange(k + 1, t.len() as int) =~= s.subrange(lo + k + 1, hi));
        lemma_digits_bytes(s, lo, lo + k);
        lemma_digits_bytes(s, lo + k + 1, hi);
        assert(t[k] == s[lo + k]);
    }
}

proof fn lemma_unsigned_float_bytes(s: Seq<u8>, lo: int, hi: int)
    requires
        0 <= lo <= hi <= s.len(),
        is_unsigned_float(s.subrange(lo, hi)),
    ensures
        forall|i: int| lo <= i < hi ==> is_literal_byte(#[trigger] s[i]),
{
    let t = s.subrange(lo, hi);
    if is_mantissa(t) {
        lemma_mantissa_bytes(s, lo, hi);
    } else {
        let k = choose|k: int|
            0 < k < t.len() && (#[trigger] t[k] == LOWER_E || t[k] == UPPER_E) && is_mantissa(
                t.subrange(0, k),
            ) && is_exponent(t.subrange(k + 1, t.len() as int));
        assert(t.subrange(0, k) =~= s.subrange(lo, lo + k));
        lemma_mantissa_bytes(s, lo, lo + k);
        assert(t[k] == s[lo + k]);
        let e = t.subrange(k + 1, t.len() as int);
        assert(e =~= s.subrange(lo + k + 1, hi));
        if all_digits(e) {
            lemma_digits_bytes(s, lo + k + 1, hi);
        } else {
            assert(e.subrange(1, e.len() as int) =~= s.subrange(lo + k + 2, hi));
            lemma_digits_bytes(s, lo + k + 2, hi);
            assert(e[0] == s[lo + k + 1]);
        }
    }
}

/// Every byte of a floating literal is a digit, a point, a sign or an exponent mark.
pub proof fn lemma_float_bytes(s: Seq<u8>)
    requires
        is_float_literal(s),
    ensures
        forall|i: int| 0 <= i < s.len() ==> is_literal_byte(#[trigger] s[i]),
{
    if s.len() > 0 && s[0] == MINUS {
        lemma_unsigned_float_bytes(s, 1, s.len() as int);
    } else {
        assert(s.subrange(0, s.len() as int) =~= s);
        lemma_unsigned_float_bytes(s, 0, s.len() as int);
    }
}

} // verus!
