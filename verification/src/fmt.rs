//! Depth-aware text formatting and parsing.  Complex numbers print as
//! `a + bi`, quaternions as `a + bi + cj + dk`, and deeper types as the
//! parenthesized pair `(re, im)`.  Parsing accepts an optional signed real
//! part and optional signed, suffixed imaginary parts, in that order; after
//! the first part each further part begins with its sign, optionally
//! surrounded by single spaces, so the printed form parses back.
use vstd::prelude::*;

use crate::model::{cd_zero, leaf_count, lemma_leaf_count_pos};
use crate::traits::{Identity, Leaves};
use crate::Complex;

verus! {

/// The failure raised when input text matches neither the numeric grammar
/// for the real component nor any recognized imaginary suffix.
#[derive(Debug, Clone, Copy, PartialEq, Eq, Structural)]
pub struct ComplexParseError;

/// `true` iff `c` is a decimal digit.
pub open spec fn is_digit(c: char) -> bool {
    '0' <= c && c <= '9'
}

/// The digit character for a value below ten.
pub open spec fn digit_char(d: int) -> char {
    if d == 0 {
        '0'
    } else if d == 1 {
        '1'
    } else if d == 2 {
        '2'
    } else if d == 3 {
        '3'
    } else if d == 4 {
        '4'
    } else if d == 5 {
        '5'
    } else if d == 6 {
        '6'
    } else if d == 7 {
        '7'
    } else if d == 8 {
        '8'
    } else {
        '9'
    }
}

/// The numeric value of a digit character.
pub open spec fn digit_val(c: char) -> int {
    (c as int) - ('0' as int)
}

/// The decimal digits of a natural number, most significant first.
pub open spec fn dec_digits(n: nat) -> Seq<char>
    decreases n,
{
    if n < 10 {
        seq![digit_char(n as int)]
    } else {
        dec_digits(n / 10) + seq![digit_char((n % 10) as int)]
    }
}

/// The decimal text of an integer, with a leading minus for negatives.
pub open spec fn int_text(x: int) -> Seq<char> {
    if x < 0 {
        seq!['-'] + dec_digits((-x) as nat)
    } else {
        dec_digits(x as nat)
    }
}

/// `true` iff every character is a decimal digit.
pub open spec fn all_digits(s: Seq<char>) -> bool {
    forall|i: int| 0 <= i < s.len() ==> is_digit(#[trigger] s[i])
}

/// The value of a digit string, most significant first.
pub open spec fn digits_val(s: Seq<char>) -> int
    decreases s.len(),
{
    if s.len() == 0 {
        0
    } else {
        digits_val(s.drop_last()) * 10 + digit_val(s.last())
    }
}

/// The end of the run of digits starting at `i`.
pub open spec fn digits_end(s: Seq<char>, i: int) -> int
    decreases s.len() - i,
{
    if 0 <= i < s.len() && is_digit(s[i]) {
        digits_end(s, i + 1)
    } else {
        i
    }
}

/// The end of the run of spaces starting at `i`.
pub open spec fn ws_end(s: Seq<char>, i: int) -> int
    decreases s.len() - i,
{
    if 0 <= i < s.len() && s[i] == ' ' {
        ws_end(s, i + 1)
    } else {
        i
    }
}

/// The end of an optionally signed digit run starting at `i`, or `i` itself
/// when no such literal starts there.
pub open spec fn lit_end(s: Seq<char>, i: int) -> int {
    let j = if 0 <= i < s.len() && (s[i] == '+' || s[i] == '-') {
        i + 1
    } else {
        i
    };
    let e = digits_end(s, j);
    if e > j {
        e
    } else {
        i
    }
}

/// The value of the signed literal spanning `[i, e)`.
pub open spec fn lit_val(s: Seq<char>, i: int, e: int) -> int {
    if s[i] == '-' {
        -digits_val(s.subrange(i + 1, e))
    } else if s[i] == '+' {
        digits_val(s.subrange(i + 1, e))
    } else {
        digits_val(s.subrange(i, e))
    }
}

/// The basis slot a suffix letter selects: `i`, `j`, `k` in either case; any
/// other character is no suffix.
pub open spec fn suffix_rank(c: char) -> int {
    if c == 'i' || c == 'I' {
        1
    } else if c == 'j' || c == 'J' {
        2
    } else if c == 'k' || c == 'K' {
        3
    } else {
        0
    }
}

/// One component term starting at `i`: its end, its signed value and its
/// basis slot.  The first term is an optionally signed literal with an
/// optional suffix; every later term begins with a mandatory sign, each side
/// of which may carry spaces, and must carry a suffix.
pub open spec fn term_at(s: Seq<char>, i: int, first: bool) -> Option<(int, int, int)> {
    if first {
        let e = lit_end(s, i);
        if e == i {
            None
        } else if e < s.len() && suffix_rank(s[e]) > 0 {
            Some((e + 1, lit_val(s, i, e), suffix_rank(s[e])))
        } else {
            Some((e, lit_val(s, i, e), 0))
        }
    } else {
        let j = ws_end(s, i);
        if j < s.len() && (s[j] == '+' || s[j] == '-') {
            let k = ws_end(s, j + 1);
            let e = digits_end(s, k);
            if e > k {
                let mag = digits_val(s.subrange(k, e));
                let v = if s[j] == '-' {
                    -mag
                } else {
                    mag
                };
                if e < s.len() && suffix_rank(s[e]) > 0 {
                    Some((e + 1, v, suffix_rank(s[e])))
                } else {
                    None
                }
            } else {
                None
            }
        } else {
            None
        }
    }
}

/// Reads the remaining terms from position `i` into the four coefficient
/// slots.  Slots must come in strictly increasing order and stay within
/// `maxr`; at most four terms can occur.
pub open spec fn terms_from(
    s: Seq<char>,
    i: int,
    prev: int,
    vals: Seq<int>,
    maxr: int,
    left: nat,
) -> Option<Seq<int>>
    decreases left,
{
    if i == s.len() {
        Some(vals)
    } else if left == 0 {
        None
    } else {
        match term_at(s, i, prev < 0) {
            None => None,
            Some((e, v, rk)) => {
                if rk > prev && rk <= maxr {
                    terms_from(s, e, rk, vals.update(rk, v), maxr, (left - 1) as nat)
                } else {
                    None
                }
            },
        }
    }
}

/// The four coefficients of a depth-one or depth-two literal: real, `i`,
/// `j`, `k`, with absent parts zero.  The empty text is no match.
pub open spec fn coeffs_of(s: Seq<char>, maxr: int) -> Option<Seq<int>> {
    if s.len() == 0 {
        None
    } else {
        terms_from(s, 0, -1, seq![0, 0, 0, 0], maxr, 4)
    }
}

/// `true` iff every coefficient is small enough for the scalar; the parser
/// rejects coefficients beyond this magnitude.
pub open spec fn small(v: Seq<int>) -> bool {
    forall|i: int| 0 <= i < v.len() ==> -(i64::MAX as int) <= #[trigger] v[i] <= i64::MAX as int
}

/// The sign joiner between printed terms.
pub open spec fn sign_text(x: int) -> Seq<char> {
    if x < 0 {
        seq![' ', '-', ' ']
    } else {
        seq![' ', '+', ' ']
    }
}

/// A printed non-real term: sign joiner, magnitude, suffix.
pub open spec fn term_text(x: int, suf: char) -> Seq<char> {
    sign_text(x) + dec_digits((if x < 0 {
        -x
    } else {
        x
    }) as nat) + seq![suf]
}

/// The printed form of a depth-one value: `re + im i`.
pub open spec fn c1_text(a: Seq<int>) -> Seq<char> {
    int_text(a[0]) + term_text(a[1], 'i')
}

/// The printed form of a depth-two value: `a + bi + cj + dk`.
pub open spec fn c2_text(a: Seq<int>) -> Seq<char> {
    int_text(a[0]) + term_text(a[1], 'i') + term_text(a[2], 'j') + term_text(a[3], 'k')
}

/// The first position at parenthesis depth zero holding a comma, or a
/// negative number when there is none.
pub open spec fn comma_at(s: Seq<char>, i: int, d: int) -> int
    decreases s.len() - i,
{
    if i < 0 || i >= s.len() {
        -1
    } else if s[i] == ',' && d == 0 {
        i
    } else {
        comma_at(
            s,
            i + 1,
            if s[i] == '(' {
                d + 1
            } else if s[i] == ')' {
                d - 1
            } else {
                d
            },
        )
    }
}

/// A digit string is made of digits, is never empty, and carries its value.
pub proof fn lemma_digits_shape(n: nat)
    ensures
        all_digits(dec_digits(n)),
        dec_digits(n).len() >= 1,
        digits_val(dec_digits(n)) == n,
    decreases n,
{
    if n < 10 {
        let w = seq![digit_char(n as int)];
        assert(dec_digits(n) =~= w);
        assert(is_digit(digit_char(n as int)));
        assert(w.drop_last() =~= Seq::<char>::empty());
        assert(w.last() == digit_char(n as int));
        assert(digits_val(Seq::<char>::empty()) == 0);
        assert(digit_val(digit_char(n as int)) == n);
        assert(digits_val(w) == 0 * 10 + digit_val(digit_char(n as int)));
    } else {
        lemma_digits_shape(n / 10);
        let d = dec_digits(n / 10);
        let w = dec_digits(n);
        assert(w == d + seq![digit_char((n % 10) as int)]);
        assert(w.drop_last() =~= d);
        assert(w.last() == digit_char((n % 10) as int));
        assert forall|i: int| 0 <= i < w.len() implies is_digit(#[trigger] w[i]) by {
            if i < d.len() {
                assert(w[i] == d[i]);
            }
        }
    }
}

/// Every character before the end of a digit run is a digit.
pub proof fn lemma_digits_end_digits(s: Seq<char>, i: int)
    requires
        0 <= i <= s.len(),
    ensures
        i <= digits_end(s, i) <= s.len(),
        forall|j: int| i <= j < digits_end(s, i) ==> is_digit(#[trigger] s[j]),
    decreases s.len() - i,
{
    if 0 <= i < s.len() && is_digit(s[i]) {
        lemma_digits_end_digits(s, i + 1);
    }
}

/// A run of digits bounded by a non-digit or the end scans to its far end.
pub proof fn lemma_digits_end_run(s: Seq<char>, i: int, e: int)
    requires
        0 <= i <= e <= s.len(),
        forall|j: int| i <= j < e ==> is_digit(#[trigger] s[j]),
        e == s.len() || !is_digit(s[e]),
    ensures
        digits_end(s, i) == e,
    decreases e - i,
{
    if i < e {
        lemma_digits_end_run(s, i + 1, e);
    }
}

/// Digit values are never negative.
pub proof fn lemma_digits_val_nonneg(s: Seq<char>)
    requires
        all_digits(s),
    ensures
        digits_val(s) >= 0,
    decreases s.len(),
{
    if s.len() > 0 {
        assert(all_digits(s.drop_last()));
        lemma_digits_val_nonneg(s.drop_last());
        assert(digits_val(s.drop_last()) * 10 >= 0) by (nonlinear_arith)
            requires
                digits_val(s.drop_last()) >= 0,
        ;
    }
}

/// Extending a digit string on the right never shrinks its value.
pub proof fn lemma_digits_val_mono(s: Seq<char>, k: int, j: int, e: int)
    requires
        0 <= k <= j <= e <= s.len(),
        forall|m: int| k <= m < e ==> is_digit(#[trigger] s[m]),
    ensures
        digits_val(s.subrange(k, e)) >= digits_val(s.subrange(k, j)),
    decreases e - j,
{
    if j < e {
        let u = s.subrange(k, j + 1);
        let t = s.subrange(k, j);
        assert(u.drop_last() =~= t);
        assert(all_digits(t));
        lemma_digits_val_nonneg(t);
        assert(digits_val(u) == digits_val(t) * 10 + digit_val(s[j]));
        assert(digits_val(t) * 10 >= digits_val(t)) by (nonlinear_arith)
            requires
                digits_val(t) >= 0,
        ;
        lemma_digits_val_mono(s, k, j + 1, e);
    }
}

/// The text for a digit below ten.
fn digit_str(d: u64) -> (r: &'static str)
    requires
        d < 10,
    ensures
        r@ == seq![digit_char(d as int)],
{
    proof {
        reveal_strlit("0");
        reveal_strlit("1");
        reveal_strlit("2");
        reveal_strlit("3");
        reveal_strlit("4");
        reveal_strlit("5");
        reveal_strlit("6");
        reveal_strlit("7");
        reveal_strlit("8");
        reveal_strlit("9");
    }
    if d == 0 {
        "0"
    } else if d == 1 {
        "1"
    } else if d == 2 {
        "2"
    } else if d == 3 {
        "3"
    } else if d == 4 {
        "4"
    } else if d == 5 {
        "5"
    } else if d == 6 {
        "6"
    } else if d == 7 {
        "7"
    } else if d == 8 {
        "8"
    } else {
        "9"
    }
}

/// The decimal text of a natural number.
fn nat_string(n: u64) -> (r: String)
    ensures
        r@ == dec_digits(n as nat),
    decreases n,
{
    if n < 10 {
        String::from_str(digit_str(n))
    } else {
        let mut s = nat_string(n / 10);
        s.append(digit_str(n % 10));
        proof {
            assert(s@ == dec_digits(n as nat / 10) + seq![digit_char((n as nat % 10) as int)]);
        }
        s
    }
}

/// The decimal text of a scalar, with a leading minus for negatives.
fn i64_string(x: i64) -> (r: String)
    ensures
        r@ == int_text(x as int),
{
    if x >= 0 {
        nat_string(x as u64)
    } else {
        proof {
            reveal_strlit("-");
        }
        let mut s = String::from_str("-");
        let m = nat_string(crate::scalar::abs_u64(x));
        s.append(m.as_str());
        proof {
            assert(s@ == seq!['-'] + dec_digits((-(x as int)) as nat));
        }
        s
    }
}

/// One printed non-real term: the spaced sign, the magnitude, the suffix.
fn term_string(x: i64, suf: &str) -> (r: String)
    requires
        suf@.len() == 1,
    ensures
        r@ == term_text(x as int, suf@[0]),
{
    proof {
        reveal_strlit(" - ");
        reveal_strlit(" + ");
    }
    let mut s = if x < 0 {
        String::from_str(" - ")
    } else {
        String::from_str(" + ")
    };
    proof {
        assert(s@ =~= sign_text(x as int));
    }
    let m = nat_string(crate::scalar::abs_u64(x));
    s.append(m.as_str());
    s.append(suf);
    proof {
        assert(suf@ =~= seq![suf@[0]]);
        assert(s@ == term_text(x as int, suf@[0]));
    }
    s
}

/// The far end of the digit run starting at `i`.
fn scan_digits(s: &str, i: usize, n: usize) -> (e: usize)
    requires
        n == s@.len(),
        i <= n,
    ensures
        e as int == digits_end(s@, i as int),
        i <= e <= n,
{
    let mut cur = i;
    loop
        invariant
            i <= cur <= n,
            n == s@.len(),
            digits_end(s@, i as int) == digits_end(s@, cur as int),
        ensures
            i <= cur <= n,
            digits_end(s@, i as int) == cur as int,
        decreases n - cur,
    {
        if cur >= n {
            break ;
        }
        let c = s.get_char(cur);
        if !('0' <= c && c <= '9') {
            break ;
        }
        proof {
            assert(digits_end(s@, cur as int) == digits_end(s@, cur as int + 1));
        }
        cur = cur + 1;
    }
    cur
}

/// The far end of the space run starting at `i`.
fn scan_ws(s: &str, i: usize, n: usize) -> (e: usize)
    requires
        n == s@.len(),
        i <= n,
    ensures
        e as int == ws_end(s@, i as int),
        i <= e <= n,
{
    let mut cur = i;
    loop
        invariant
            i <= cur <= n,
            n == s@.len(),
            ws_end(s@, i as int) == ws_end(s@, cur as int),
        ensures
            i <= cur <= n,
            ws_end(s@, i as int) == cur as int,
        decreases n - cur,
    {
        if cur >= n {
            break ;
        }
        let c = s.get_char(cur);
        if c != ' ' {
            break ;
        }
        proof {
            assert(ws_end(s@, cur as int) == ws_end(s@, cur as int + 1));
        }
        cur = cur + 1;
    }
    cur
}

/// The value of the digit run spanning `[k, e)`, or nothing when it exceeds
/// the scalar.
fn digits_value(s: &str, k: usize, e: usize) -> (r: Option<i64>)
    requires
        k < e <= s@.len(),
        forall|j: int| k <= j < e ==> is_digit(#[trigger] s@[j]),
    ensures
        match r {
            Some(v) => v as int == digits_val(s@.subrange(k as int, e as int)) && v >= 0,
            None => digits_val(s@.subrange(k as int, e as int)) > i64::MAX as int,
        },
{
    let mut acc: u64 = 0;
    let mut cur = k;
    proof {
        assert(s@.subrange(k as int, k as int) =~= Seq::<char>::empty());
    }
    while cur < e
        invariant
            k <= cur <= e <= s@.len(),
            forall|j: int| k <= j < e ==> is_digit(#[trigger] s@[j]),
            acc <= i64::MAX as u64,
            acc as int == digits_val(s@.subrange(k as int, cur as int)),
        decreases e - cur,
    {
        let c = s.get_char(cur);
        proof {
            assert(is_digit(s@[cur as int]));
        }
        let d: u64 = (c as u32 - 48) as u64;
        proof {
            assert(d as int == digit_val(s@[cur as int]));
            assert(0 <= d < 10);
            let t = s@.subrange(k as int, cur as int);
            let u = s@.subrange(k as int, cur as int + 1);
            assert(u.drop_last() =~= t);
            assert(u.last() == s@[cur as int]);
            assert(digits_val(u) == digits_val(t) * 10 + digit_val(s@[cur as int]));
        }
        let limit: u64 = (9223372036854775807u64 - d) / 10;
        if acc > limit {
            proof {
                let mx = i64::MAX as int;
                let q = (mx - d) / 10;
                vstd::arithmetic::div_mod::lemma_fundamental_div_mod(mx - d, 10);
                vstd::arithmetic::div_mod::lemma_mod_bound(mx - d, 10);
                assert(acc as int * 10 >= (q + 1) * 10) by (nonlinear_arith)
                    requires
                        acc as int >= q + 1,
                ;
                assert((q + 1) * 10 == 10 * q + 10) by (nonlinear_arith);
                assert(acc as int * 10 + d > mx);
                lemma_digits_val_mono(s@, k as int, cur as int + 1, e as int);
            }
            return None;
        }
        proof {
            let mx = i64::MAX as int;
            let q = (mx - d) / 10;
            vstd::arithmetic::div_mod::lemma_fundamental_div_mod(mx - d, 10);
            vstd::arithmetic::div_mod::lemma_mod_bound(mx - d, 10);
            assert(acc as int * 10 <= q * 10) by (nonlinear_arith)
                requires
                    acc as int <= q,
            ;
            assert(q * 10 == 10 * q) by (nonlinear_arith);
            assert(acc as int * 10 + d <= mx);
        }
        acc = acc * 10 + d;
        cur = cur + 1;
    }
    Some(acc as i64)
}

/// The basis slot a suffix letter selects.
fn suffix_of(c: char) -> (r: u8)
    ensures
        r as int == suffix_rank(c),
{
    if c == 'i' || c == 'I' {
        1
    } else if c == 'j' || c == 'J' {
        2
    } else if c == 'k' || c == 'K' {
        3
    } else {
        0
    }
}

/// Reads one term: its end, its basis slot, and its value, the latter absent
/// when it exceeds the scalar.
fn term_scan(s: &str, i: usize, n: usize, first: bool) -> (r: Option<(usize, u8, Option<i64>)>)
    requires
        n == s@.len(),
        i <= n,
    ensures
        match r {
            None => term_at(s@, i as int, first) is None,
            Some(t) => {
                &&& term_at(s@, i as int, first) is Some
                &&& {
                    let st = term_at(s@, i as int, first).unwrap();
                    &&& st.0 == t.0 as int
                    &&& st.2 == t.1 as int
                    &&& (i as int) < st.0
                    &&& st.0 <= n as int
                    &&& match t.2 {
                        Some(v) => v as int == st.1 && -(i64::MAX as int) <= v as int,
                        None => st.1 > i64::MAX as int || st.1 < -(i64::MAX as int),
                    }
                }
            },
        },
{
    if first {
        let sgn = if i < n {
            let c = s.get_char(i);
            c == '+' || c == '-'
        } else {
            false
        };
        let j = if sgn {
            i + 1
        } else {
            i
        };
        let e = scan_digits(s, j, n);
        if e == j {
            proof {
                assert(lit_end(s@, i as int) == i as int);
            }
            return None;
        }
        let neg = sgn && s.get_char(i) == '-';
        proof {
            lemma_digits_end_digits(s@, j as int);
            assert(all_digits(s@.subrange(j as int, e as int))) by {
                assert forall|m: int|
                    0 <= m < s@.subrange(j as int, e as int).len() implies is_digit(
                    #[trigger] s@.subrange(j as int, e as int)[m],
                ) by {
                    assert(s@.subrange(j as int, e as int)[m] == s@[j + m]);
                }
            }
        }
        let mag = digits_value(s, j, e);
        let v: Option<i64> = match mag {
            Some(m) => {
                if neg {
                    Some(-m)
                } else {
                    Some(m)
                }
            },
            None => None,
        };
        proof {
            assert(lit_end(s@, i as int) == e as int);
            if neg {
                assert(lit_val(s@, i as int, e as int) == -digits_val(
                    s@.subrange(i as int + 1, e as int),
                ));
            }
            if mag is None {
                lemma_digits_val_nonneg(s@.subrange(j as int, e as int));
            }
        }
        if e < n {
            let c = s.get_char(e);
            let rk = suffix_of(c);
            if rk > 0 {
                return Some((e + 1, rk, v));
            }
        }
        Some((e, 0, v))
    } else {
        let j = scan_ws(s, i, n);
        if j >= n {
            return None;
        }
        let c = s.get_char(j);
        if !(c == '+' || c == '-') {
            return None;
        }
        let k = scan_ws(s, j + 1, n);
        let e = scan_digits(s, k, n);
        if e == k {
            return None;
        }
        if e >= n {
            return None;
        }
        let sc = s.get_char(e);
        let rk = suffix_of(sc);
        if rk == 0 {
            return None;
        }
        proof {
            lemma_digits_end_digits(s@, k as int);
            assert(all_digits(s@.subrange(k as int, e as int))) by {
                assert forall|m: int|
                    0 <= m < s@.subrange(k as int, e as int).len() implies is_digit(
                    #[trigger] s@.subrange(k as int, e as int)[m],
                ) by {
                    assert(s@.subrange(k as int, e as int)[m] == s@[k + m]);
                }
            }
        }
        let mag = digits_value(s, k, e);
        let v: Option<i64> = match mag {
            Some(m) => {
                if c == '-' {
                    Some(-m)
                } else {
                    Some(m)
                }
            },
            None => None,
        };
        proof {
            if mag is None {
                lemma_digits_val_nonneg(s@.subrange(k as int, e as int));
            }
        }
        Some((e + 1, rk, v))
    }
}

/// A successful read of the remaining terms never changes the slots at or
/// below the last rank already read.
proof fn lemma_terms_keep(s: Seq<char>, i: int, prev: int, vals: Seq<int>, maxr: int, left: nat)
    requires
        vals.len() == 4,
        maxr <= 3,
    ensures
        match terms_from(s, i, prev, vals, maxr, left) {
            Some(w) => w.len() == vals.len() && forall|r: int|
                0 <= r <= prev && r < vals.len() ==> w[r] == #[trigger] vals[r],
            None => true,
        },
    decreases left,
{
    if i == s.len() || left == 0 {
    } else {
        match term_at(s, i, prev < 0) {
            None => {},
            Some((e, v, rk)) => {
                if rk > prev && rk <= maxr {
                    assert(0 <= rk <= 3);
                    let nv = vals.update(rk, v);
                    lemma_terms_keep(s, e, rk, nv, maxr, (left - 1) as nat);
                    if terms_from(s, e, rk, nv, maxr, (left - 1) as nat) is Some {
                        let w = terms_from(s, e, rk, nv, maxr, (left - 1) as nat).unwrap();
                        assert forall|r: int|
                            0 <= r <= prev && r < vals.len() implies w[r] == #[trigger] vals[r] by {
                            assert(nv[r] == vals[r]);
                            assert(w[r] == nv[r]);
                        }
                    }
                }
            },
        }
    }
}

/// Reads the four coefficients of a depth-one or depth-two literal, or
/// nothing when the text does not match the grammar or a coefficient exceeds
/// the scalar.
fn coeffs_scan(s: &str, maxr: u8) -> (r: Option<(i64, i64, i64, i64)>)
    requires
        maxr <= 3,
    ensures
        match r {
            Some(t) => coeffs_of(s@, maxr as int) == Some(
                seq![t.0 as int, t.1 as int, t.2 as int, t.3 as int],
            ) && small(seq![t.0 as int, t.1 as int, t.2 as int, t.3 as int]),
            None => coeffs_of(s@, maxr as int) matches Some(w) ==> !small(w),
        },
{
    let n = s.unicode_len();
    if n == 0 {
        return None;
    }
    let mut i: usize = 0;
    let mut prev: i8 = -1;
    let mut left: u8 = 4;
    let mut v0: i64 = 0;
    let mut v1: i64 = 0;
    let mut v2: i64 = 0;
    let mut v3: i64 = 0;
    loop
        invariant
            n == s@.len(),
            i <= n,
            maxr <= 3,
            -1 <= prev <= 3,
            left <= 4,
            -(i64::MAX as int) <= v0 as int,
            -(i64::MAX as int) <= v1 as int,
            -(i64::MAX as int) <= v2 as int,
            -(i64::MAX as int) <= v3 as int,
            coeffs_of(s@, maxr as int) == terms_from(
                s@,
                i as int,
                prev as int,
                seq![v0 as int, v1 as int, v2 as int, v3 as int],
                maxr as int,
                left as nat,
            ),
        ensures
            coeffs_of(s@, maxr as int) == Some(
                seq![v0 as int, v1 as int, v2 as int, v3 as int],
            ),
            small(seq![v0 as int, v1 as int, v2 as int, v3 as int]),
        decreases n - i + left,
    {
        if i == n {
            break ;
        }
        if left == 0 {
            return None;
        }
        let t = term_scan(s, i, n, prev < 0);
        match t {
            None => {
                return None;
            },
            Some((e, rk, ov)) => {
                if !(rk as i8 > prev && rk <= maxr) {
                    return None;
                }
                match ov {
                    None => {
                        proof {
                            let st = term_at(s@, i as int, prev < 0).unwrap();
                            let vals = seq![v0 as int, v1 as int, v2 as int, v3 as int];
                            assert(vals.len() == 4);
                            assert(st.2 == rk as int && 0 <= st.2 <= 3);
                            assert(vals.update(st.2, st.1).len() == 4);
                            lemma_terms_keep(
                                s@,
                                st.0,
                                st.2,
                                vals.update(st.2, st.1),
                                maxr as int,
                                (left - 1) as nat,
                            );
                            assert(vals.update(st.2, st.1)[st.2] == st.1);
                        }
                        return None;
                    },
                    Some(v) => {
                        let ghost old_vals = seq![v0 as int, v1 as int, v2 as int, v3 as int];
                        if rk == 0 {
                            v0 = v;
                        } else if rk == 1 {
                            v1 = v;
                        } else if rk == 2 {
                            v2 = v;
                        } else {
                            v3 = v;
                        }
                        proof {
                            let st = term_at(s@, i as int, prev < 0).unwrap();
                            assert(seq![v0 as int, v1 as int, v2 as int, v3 as int] =~= old_vals
                                .update(st.2, st.1));
                        }
                        i = e;
                        prev = rk as i8;
                        left = left - 1;
                    },
                }
            },
        }
    }
    Some((v0, v1, v2, v3))
}

/// Depth-aware text of a value, selected by the nesting depth through the
/// sealed implementations below.
pub trait Text: Leaves + Sized {
    /// The printed form of the leaves.
    spec fn spec_text(a: Seq<int>) -> Seq<char>;

    /// The leaves a text denotes, if any; coefficients too large for the
    /// scalar count as no match at the depth where they appear.
    spec fn spec_parse(s: Seq<char>) -> Option<Seq<int>>;

    /// Formats the value.
    fn to_text(&self) -> (s: String)
        ensures
            s@ == Self::spec_text(self.leaves()),
    ;

    /// Parses a value from text.
    fn from_str(s: &str) -> (r: Result<Self, ComplexParseError>)
        ensures
            match r {
                Ok(z) => Self::spec_parse(s@) == Some(z.leaves()),
                Err(_) => Self::spec_parse(s@) is None,
            },
    ;
}

impl Text for Complex<i64> {
    open spec fn spec_text(a: Seq<int>) -> Seq<char> {
        c1_text(a)
    }

    open spec fn spec_parse(s: Seq<char>) -> Option<Seq<int>> {
        match coeffs_of(s, 1) {
            Some(v) => if small(v) {
                Some(seq![v[0], v[1]])
            } else {
                None
            },
            None => None,
        }
    }

    fn to_text(&self) -> (s: String) {
        proof {
            reveal_strlit("i");
            assert(self.leaves() =~= seq![self.re as int, self.im as int]);
        }
        let mut out = i64_string(self.re);
        let t = term_string(self.im, "i");
        out.append(t.as_str());
        proof {
            assert(out@ == c1_text(self.leaves()));
        }
        out
    }

    fn from_str(s: &str) -> (r: Result<Self, ComplexParseError>) {
        match coeffs_scan(s, 1) {
            Some((a, b, _, _)) => {
                let z = Complex { re: a, im: b };
                proof {
                    assert(z.leaves() =~= seq![a as int, b as int]);
                }
                Ok(z)
            },
            None => Err(ComplexParseError),
        }
    }
}

impl Text for Complex<Complex<i64>> {
    open spec fn spec_text(a: Seq<int>) -> Seq<char> {
        c2_text(a)
    }

    open spec fn spec_parse(s: Seq<char>) -> Option<Seq<int>> {
        match coeffs_of(s, 3) {
            Some(v) => if small(v) {
                Some(v)
            } else {
                None
            },
            None => None,
        }
    }

    fn to_text(&self) -> (s: String) {
        proof {
            reveal_strlit("i");
            reveal_strlit("j");
            reveal_strlit("k");
            assert(self.leaves() =~= seq![
                self.re.re as int,
                self.re.im as int,
                self.im.re as int,
                self.im.im as int,
            ]);
        }
        let mut out = i64_string(self.re.re);
        let ti = term_string(self.re.im, "i");
        out.append(ti.as_str());
        let tj = term_string(self.im.re, "j");
        out.append(tj.as_str());
        let tk = term_string(self.im.im, "k");
        out.append(tk.as_str());
        proof {
            assert(out@ == c2_text(self.leaves()));
        }
        out
    }

    fn from_str(s: &str) -> (r: Result<Self, ComplexParseError>) {
        match coeffs_scan(s, 3) {
            Some((a, b, c, d)) => {
                let z = Complex { re: Complex { re: a, im: b }, im: Complex { re: c, im: d } };
                proof {
                    assert(z.leaves() =~= seq![a as int, b as int, c as int, d as int]);
                    assert(Self::spec_parse(s@) == Some(z.leaves()));
                }
                Ok(z)
            },
            None => Err(ComplexParseError),
        }
    }
}

/// A printed leading component scans back as the first term: the whole
/// literal, its value, and no suffix.
proof fn lemma_first_term(s: Seq<char>, a0: int)
    requires
        int_text(a0).len() <= s.len(),
        s.subrange(0, int_text(a0).len() as int) == int_text(a0),
        int_text(a0).len() == s.len() || s[int_text(a0).len() as int] == ' ',
    ensures
        term_at(s, 0, true) == Some((int_text(a0).len() as int, a0, 0int)),
{
    let w = int_text(a0);
    let l = w.len() as int;
    assert forall|j: int| 0 <= j < l implies s[j] == #[trigger] w[j] by {
        assert(s.subrange(0, l)[j] == s[j]);
    }
    if a0 >= 0 {
        lemma_digits_shape(a0 as nat);
        assert forall|j: int| 0 <= j < l implies is_digit(#[trigger] s[j]) by {
            assert(s[j] == w[j]);
        }
        lemma_digits_end_run(s, 0, l);
        assert(lit_end(s, 0) == l);
        assert(s.subrange(0, l) =~= w);
        assert(lit_val(s, 0, l) == digits_val(w));
        assert(digits_val(w) == a0);
        if l < s.len() {
            assert(suffix_rank(s[l]) == 0);
        }
    } else {
        lemma_digits_shape((-a0) as nat);
        let d = dec_digits((-a0) as nat);
        assert(s[0] == w[0] && w[0] == '-');
        assert forall|j: int| 1 <= j < l implies is_digit(#[trigger] s[j]) by {
            assert(s[j] == w[j]);
            assert(w[j] == d[j - 1]);
        }
        lemma_digits_end_run(s, 1, l);
        assert(lit_end(s, 0) == l);
        assert(s.subrange(1, l) =~= d) by {
            assert forall|j: int| 0 <= j < l - 1 implies s.subrange(1, l)[j] == #[trigger] d[j] by {
                assert(s.subrange(1, l)[j] == s[1 + j]);
                assert(s[1 + j] == w[1 + j]);
                assert(w[1 + j] == d[j]);
            }
        }
        assert(lit_val(s, 0, l) == -digits_val(d));
        assert(digits_val(d) == -a0);
        if l < s.len() {
            assert(suffix_rank(s[l]) == 0);
        }
    }
}

/// A printed signed, suffixed term scans back as a later term: its window,
/// its value and its slot.
proof fn lemma_sign_term(s: Seq<char>, i: int, x: int, suf: char)
    requires
        suffix_rank(suf) >= 1,
        0 <= i,
        i + term_text(x, suf).len() <= s.len(),
        s.subrange(i, i + term_text(x, suf).len()) == term_text(x, suf),
    ensures
        term_at(s, i, false) == Some(
            (i + term_text(x, suf).len() as int, x, suffix_rank(suf)),
        ),
{
    let w = term_text(x, suf);
    let l = w.len() as int;
    let mag = (if x < 0 {
        -x
    } else {
        x
    }) as nat;
    lemma_digits_shape(mag);
    let d = dec_digits(mag);
    let m = d.len() as int;
    assert(l == 4 + m);
    assert forall|j: int| 0 <= j < l implies s[i + j] == #[trigger] w[j] by {
        assert(s.subrange(i, i + l)[j] == s[i + j]);
    }
    assert(w[0] == ' ');
    assert(w[1] == '-' || w[1] == '+');
    assert(w[2] == ' ');
    assert forall|j: int| 0 <= j < m implies is_digit(#[trigger] s[i + 3 + j]) by {
        assert(w[3 + j] == d[j]);
    }
    assert(w[3 + m] == suf);
    assert(!is_digit(suf));
    assert(s[i] == w[0]);
    assert(s[i + 1] == w[1]);
    assert(s[i + 2] == w[2]);
    assert(w[3] == d[0]);
    assert(s[i + 3] == w[3]);
    assert(is_digit(s[i + 3]));
    assert(ws_end(s, i + 1) == i + 1);
    assert(ws_end(s, i) == i + 1);
    assert(ws_end(s, i + 3) == i + 3);
    assert(ws_end(s, i + 2) == i + 3);
    assert forall|j: int| i + 3 <= j < i + 3 + m implies is_digit(#[trigger] s[j]) by {
        assert(s[j] == w[j - i]);
        assert(w[3 + (j - i - 3)] == d[j - i - 3]);
    }
    lemma_digits_end_run(s, i + 3, i + 3 + m);
    assert(s.subrange(i + 3, i + 3 + m) =~= d) by {
        assert forall|j: int| 0 <= j < m implies s.subrange(i + 3, i + 3 + m)[j] == #[trigger] d[j] by {
            assert(s.subrange(i + 3, i + 3 + m)[j] == s[i + 3 + j]);
            assert(s[i + 3 + j] == w[3 + j]);
            assert(w[3 + j] == d[j]);
        }
    }
    assert(s[i + 3 + m] == suf);
    assert(digits_val(s.subrange(i + 3, i + 3 + m)) == mag);
    if x < 0 {
        assert(s[i + 1] == '-');
    } else {
        assert(s[i + 1] == '+');
    }
}

/// Printing a complex number and reading the text back recovers both
/// coefficients exactly.
#[verifier::rlimit(60)]
pub proof fn lemma_print_parse_complex(a: Seq<int>)
    requires
        a.len() == 2,
    ensures
        coeffs_of(c1_text(a), 1) == Some(seq![a[0], a[1], 0, 0]),
{
    let s = c1_text(a);
    let w0 = int_text(a[0]);
    let w1 = term_text(a[1], 'i');
    let l0 = w0.len() as int;
    let l1 = w1.len() as int;
    lemma_digits_shape((if a[0] < 0 {
        -a[0]
    } else {
        a[0]
    }) as nat);
    lemma_digits_shape((if a[1] < 0 {
        -a[1]
    } else {
        a[1]
    }) as nat);
    assert(s.len() == l0 + l1);
    assert(s.subrange(0, l0) =~= w0);
    assert(s[l0] == w1[0] && w1[0] == ' ');
    lemma_first_term(s, a[0]);
    assert(s.subrange(l0, l0 + l1) =~= w1);
    lemma_sign_term(s, l0, a[1], 'i');
    let z = seq![0int, 0int, 0int, 0int];
    let v1 = z.update(0, a[0]);
    let v2 = v1.update(1, a[1]);
    assert(terms_from(s, l0 + l1, 1, v2, 1, 2) == Some(v2));
    assert(terms_from(s, l0, 0, v1, 1, 3) == terms_from(s, l0 + l1, 1, v2, 1, 2));
    assert(terms_from(s, 0, -1, z, 1, 4) == terms_from(s, l0, 0, v1, 1, 3));
    assert(coeffs_of(s, 1) == terms_from(s, 0, -1, z, 1, 4));
    assert(v2 =~= seq![a[0], a[1], 0, 0]);
}

/// Printing a quaternion and reading the text back recovers all four
/// coefficients exactly.
#[verifier::rlimit(80)]
pub proof fn lemma_print_parse_quaternion(a: Seq<int>)
    requires
        a.len() == 4,
    ensures
        coeffs_of(c2_text(a), 3) == Some(a),
{
    let s = c2_text(a);
    let w0 = int_text(a[0]);
    let w1 = term_text(a[1], 'i');
    let w2 = term_text(a[2], 'j');
    let w3 = term_text(a[3], 'k');
    let l0 = w0.len() as int;
    let l1 = w1.len() as int;
    let l2 = w2.len() as int;
    let l3 = w3.len() as int;
    lemma_digits_shape((if a[0] < 0 {
        -a[0]
    } else {
        a[0]
    }) as nat);
    assert(s.len() == l0 + l1 + l2 + l3);
    assert(s.subrange(0, l0) =~= w0);
    assert(s[l0] == w1[0] && w1[0] == ' ');
    lemma_first_term(s, a[0]);
    assert(s.subrange(l0, l0 + l1) =~= w1);
    lemma_sign_term(s, l0, a[1], 'i');
    assert(s.subrange(l0 + l1, l0 + l1 + l2) =~= w2);
    lemma_sign_term(s, l0 + l1, a[2], 'j');
    assert(s.subrange(l0 + l1 + l2, l0 + l1 + l2 + l3) =~= w3);
    lemma_sign_term(s, l0 + l1 + l2, a[3], 'k');
    let z = seq![0int, 0int, 0int, 0int];
    let v1 = z.update(0, a[0]);
    let v2 = v1.update(1, a[1]);
    let v3 = v2.update(2, a[2]);
    let v4 = v3.update(3, a[3]);
    assert(terms_from(s, l0 + l1 + l2 + l3, 3, v4, 3, 0) == Some(v4));
    assert(terms_from(s, l0 + l1 + l2, 2, v3, 3, 1) == terms_from(
        s,
        l0 + l1 + l2 + l3,
        3,
        v4,
        3,
        0,
    ));
    assert(terms_from(s, l0 + l1, 1, v2, 3, 2) == terms_from(s, l0 + l1 + l2, 2, v3, 3, 1));
    assert(terms_from(s, l0, 0, v1, 3, 3) == terms_from(s, l0 + l1, 1, v2, 3, 2));
    assert(terms_from(s, 0, -1, z, 3, 4) == terms_from(s, l0, 0, v1, 3, 3));
    assert(coeffs_of(s, 3) == terms_from(s, 0, -1, z, 3, 4));
    assert(v4 =~= a);
}

/// Parsing the printed form of a complex number gives the value back.
pub proof fn lemma_text_round_trip_complex(a: Seq<int>)
    requires
        a.len() == 2,
        small(a),
    ensures
        <Complex<i64> as Text>::spec_parse(<Complex<i64> as Text>::spec_text(a)) == Some(a),
{
    lemma_print_parse_complex(a);
    assert(small(seq![a[0], a[1], 0, 0]));
    assert(seq![a[0], a[1]] =~= a);
}

/// Parsing the printed form of a quaternion gives the value back.
pub proof fn lemma_text_round_trip_quaternion(a: Seq<int>)
    requires
        a.len() == 4,
        small(a),
    ensures
        <Complex<Complex<i64>> as Text>::spec_parse(<Complex<Complex<i64>> as Text>::spec_text(a))
            == Some(a),
{
    lemma_print_parse_quaternion(a);
}

/// The position of the first comma at parenthesis depth zero.
fn comma_scan(s: &str, n: usize) -> (r: Option<usize>)
    requires
        n == s@.len(),
    ensures
        match r {
            Some(c) => comma_at(s@, 0, 0) == c as int && c < n,
            None => comma_at(s@, 0, 0) < 0,
        },
{
    let mut cur: usize = 0;
    let mut d: i128 = 0;
    loop
        invariant
            cur <= n,
            n == s@.len(),
            -(cur as int) <= d as int <= cur as int,
            comma_at(s@, 0, 0) == comma_at(s@, cur as int, d as int),
        ensures
            match (if cur < n {
                Some(cur)
            } else {
                None
            }) {
                Some(c) => comma_at(s@, 0, 0) == c as int && c < n,
                None => comma_at(s@, 0, 0) < 0,
            },
        decreases n - cur,
    {
        if cur >= n {
            proof {
                assert(comma_at(s@, cur as int, d as int) == -1);
            }
            break ;
        }
        let c = s.get_char(cur);
        if c == ',' && d == 0 {
            proof {
                assert(comma_at(s@, cur as int, d as int) == cur as int);
            }
            break ;
        }
        proof {
            assert(comma_at(s@, cur as int, d as int) == comma_at(
                s@,
                cur as int + 1,
                if s@[cur as int] == '(' {
                    d as int + 1
                } else if s@[cur as int] == ')' {
                    d as int - 1
                } else {
                    d as int
                },
            ));
        }
        if c == '(' {
            d = d + 1;
        } else if c == ')' {
            d = d - 1;
        }
        cur = cur + 1;
    }
    if cur < n {
        Some(cur)
    } else {
        None
    }
}

impl<T: Leaves> Text for Complex<Complex<Complex<T>>> where Complex<Complex<T>>: Text + Identity {
    open spec fn spec_text(a: Seq<int>) -> Seq<char> {
        seq!['('] + <Complex<Complex<T>> as Text>::spec_text(crate::model::lo(a)) + seq![
            ',',
            ' ',
        ] + <Complex<Complex<T>> as Text>::spec_text(crate::model::hi(a)) + seq![')']
    }

    open spec fn spec_parse(s: Seq<char>) -> Option<Seq<int>> {
        if s.len() < 2 || s[0] != '(' || s[s.len() - 1] != ')' {
            None
        } else {
            let inner = s.subrange(1, s.len() - 1);
            let c = comma_at(inner, 0, 0);
            if c < 0 {
                None
            } else {
                let xs = inner.subrange(0, c);
                let ys = inner.subrange(ws_end(inner, c + 1), inner.len() as int);
                let xo = <Complex<Complex<T>> as Text>::spec_parse(xs);
                let yo = <Complex<Complex<T>> as Text>::spec_parse(ys);
                let half = leaf_count(T::depth() + 2);
                if xo is Some && yo is Some {
                    Some(xo.unwrap() + yo.unwrap())
                } else if xo is Some {
                    Some(xo.unwrap() + cd_zero(half))
                } else if yo is Some {
                    Some(cd_zero(half) + yo.unwrap())
                } else {
                    None
                }
            }
        }
    }

    fn to_text(&self) -> (s: String) {
        proof {
            reveal_strlit("(");
            reveal_strlit(", ");
            reveal_strlit(")");
            crate::ops::split_view(self);
        }
        let mut out = String::from_str("(");
        let rs = self.re.to_text();
        out.append(rs.as_str());
        out.append(", ");
        let is_text = self.im.to_text();
        out.append(is_text.as_str());
        out.append(")");
        proof {
            assert(out@ =~= Self::spec_text(self.leaves()));
        }
        out
    }

    fn from_str(s: &str) -> (r: Result<Self, ComplexParseError>) {
        let n = s.unicode_len();
        if n < 2 {
            return Err(ComplexParseError);
        }
        let c0 = s.get_char(0);
        let cl = s.get_char(n - 1);
        if c0 != '(' || cl != ')' {
            return Err(ComplexParseError);
        }
        let inner = s.substring_char(1, n - 1);
        let ni = inner.unicode_len();
        match comma_scan(inner, ni) {
            None => Err(ComplexParseError),
            Some(c) => {
                let xs = inner.substring_char(0, c);
                let w = scan_ws(inner, c + 1, ni);
                let ys = inner.substring_char(w, ni);
                let xo = <Complex<Complex<T>> as Text>::from_str(xs);
                let yo = <Complex<Complex<T>> as Text>::from_str(ys);
                proof {
                    lemma_leaf_count_pos(T::depth());
                }
                match (xo, yo) {
                    (Ok(x), Ok(y)) => {
                        let z = Complex { re: x, im: y };
                        proof {
                            assert(Self::spec_parse(s@) == Some(z.leaves()));
                        }
                        Ok(z)
                    },
                    (Ok(x), Err(_)) => {
                        let y = <Complex<Complex<T>> as Identity>::zero();
                        let z = Complex { re: x, im: y };
                        proof {
                            assert(Self::spec_parse(s@) == Some(z.leaves()));
                        }
                        Ok(z)
                    },
                    (Err(_), Ok(y)) => {
                        let x = <Complex<Complex<T>> as Identity>::zero();
                        let z = Complex { re: x, im: y };
                        proof {
                            assert(Self::spec_parse(s@) == Some(z.leaves()));
                        }
                        Ok(z)
                    },
                    (Err(_), Err(_)) => Err(ComplexParseError),
                }
            },
        }
    }
}

} // verus!
