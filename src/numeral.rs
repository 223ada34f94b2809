//! Numerals: the decimal and special forms that a coordinate, size or delta
//! may take in attribute text, and the repetition count that a numeral gives
//! in a run-length group.

use vstd::prelude::*;

use crate::text::{chars_of, is_word, is_ws};

verus! {

/// Largest count a run-length group can give: counts saturate at `i32::MAX`.
pub const COUNT_CAP: u64 = 2147483647;

/// Exponents beyond this magnitude behave alike, whatever the length of the
/// digits in front of them (2 to the 70th).
pub const EXP_CAP: u128 = 1180591620717411303424;

pub open spec fn is_digit(c: char) -> bool {
    '0' <= c && c <= '9'
}

pub open spec fn is_sign(c: char) -> bool {
    c == '+' || c == '-'
}

pub open spec fn all_digits(s: Seq<char>) -> bool {
    forall|i: int| 0 <= i < s.len() ==> is_digit(#[trigger] s[i])
}

/// Number of leading characters of `s` that are neither `a` nor `b`.
pub open spec fn span_until(s: Seq<char>, a: char, b: char) -> nat
    decreases s.len(),
{
    if s.len() == 0 || s[0] == a || s[0] == b {
        0
    } else {
        1 + span_until(s.drop_first(), a, b)
    }
}

/// `s` without its leading sign, if it has one.
pub open spec fn unsigned(s: Seq<char>) -> Seq<char> {
    if s.len() > 0 && is_sign(s[0]) {
        s.drop_first()
    } else {
        s
    }
}

/// `s` is the word whose lower-case letters are `lo` and upper-case `up`, in any mix of cases.
pub open spec fn matches_ci(s: Seq<char>, lo: Seq<char>, up: Seq<char>) -> bool {
    s.len() == lo.len() && forall|i: int| 0 <= i < s.len() ==> (s[i] == lo[i] || s[i] == up[i])
}

pub open spec fn is_inf_word(b: Seq<char>) -> bool {
    matches_ci(b, seq!['i', 'n', 'f'], seq!['I', 'N', 'F']) || matches_ci(
        b,
        seq!['i', 'n', 'f', 'i', 'n', 'i', 't', 'y'],
        seq!['I', 'N', 'F', 'I', 'N', 'I', 'T', 'Y'],
    )
}

pub open spec fn is_nan_word(b: Seq<char>) -> bool {
    matches_ci(b, seq!['n', 'a', 'n'], seq!['N', 'A', 'N'])
}

/// Digits with at most one decimal point, and at least one digit.
pub open spec fn is_mantissa(m: Seq<char>) -> bool {
    let p = span_until(m, '.', '.') as int;
    if p == m.len() {
        p > 0 && all_digits(m)
    } else {
        all_digits(m.take(p)) && all_digits(m.skip(p + 1)) && m.len() > 1
    }
}

/// An optional sign and at least one digit.
pub open spec fn is_exponent(x: Seq<char>) -> bool {
    unsigned(x).len() > 0 && all_digits(unsigned(x))
}

/// Length of the mantissa of an unsigned decimal: everything up to `e` or `E`.
pub open spec fn mantissa_len(b: Seq<char>) -> int {
    span_until(b, 'e', 'E') as int
}

pub open spec fn is_decimal(b: Seq<char>) -> bool {
    let k = mantissa_len(b);
    is_mantissa(b.take(k)) && (k == b.len() || is_exponent(b.skip(k + 1)))
}

/// The numerals that `f64::from_str` accepts: an optional sign, then `inf`,
/// `infinity` or `nan` in any case, or digits with an optional point and an
/// optional exponent.
pub open spec fn is_numeral(s: Seq<char>) -> bool {
    is_inf_word(unsigned(s)) || is_nan_word(unsigned(s)) || is_decimal(unsigned(s))
}

pub open spec fn digit_of(c: char) -> nat {
    (c as u32 - '0' as u32) as nat
}

/// The value of a string of decimal digits.
pub open spec fn digits_value(d: Seq<char>) -> nat
    decreases d.len(),
{
    if d.len() == 0 {
        0
    } else {
        digits_value(d.drop_last()) * 10 + digit_of(d.last())
    }
}

pub open spec fn pow10(n: nat) -> nat
    decreases n,
{
    if n == 0 {
        1
    } else {
        10 * pow10((n - 1) as nat)
    }
}

/// The digits of a mantissa, with its point taken out.
pub open spec fn mantissa_digits(m: Seq<char>) -> Seq<char> {
    let p = span_until(m, '.', '.') as int;
    if p < m.len() {
        m.take(p) + m.skip(p + 1)
    } else {
        m
    }
}

/// The value of an exponent: its sign applied to its digits.
pub open spec fn exponent_value(x: Seq<char>) -> int {
    if x.len() > 0 && x[0] == '-' {
        -digits_value(unsigned(x))
    } else {
        digits_value(unsigned(x)) as int
    }
}

/// The integer part of the number whose digits are `ds` and whose point
/// stands after the first `q` of them (`q` beyond the digits appends zeros).
pub open spec fn int_part(ds: Seq<char>, q: int) -> nat {
    if q <= 0 {
        0
    } else if q <= ds.len() {
        digits_value(ds.take(q))
    } else {
        digits_value(ds) * pow10((q - ds.len()) as nat)
    }
}

/// The digits of an unsigned decimal, its point taken out.
pub open spec fn decimal_digits(b: Seq<char>) -> Seq<char> {
    mantissa_digits(b.take(mantissa_len(b)))
}

/// How many of `decimal_digits(b)` stand before the point, once the exponent
/// has moved it (negative where zeros come between point and digits).
pub open spec fn decimal_point(b: Seq<char>) -> int {
    let k = mantissa_len(b);
    let m = b.take(k);
    let e = if k == b.len() {
        0
    } else {
        exponent_value(b.skip(k + 1))
    };
    span_until(m, '.', '.') + e
}

pub open spec fn cap_count(v: nat) -> nat {
    if v < COUNT_CAP {
        v
    } else {
        COUNT_CAP as nat
    }
}

pub open spec fn exp2(n: nat) -> nat
    decreases n,
{
    if n == 0 {
        1
    } else {
        2 * exp2((n - 1) as nat)
    }
}

pub open spec fn exp5(n: nat) -> nat
    decreases n,
{
    if n == 0 {
        1
    } else {
        5 * exp5((n - 1) as nat)
    }
}

/// The base-2 logarithm of `m`, rounded down.
pub open spec fn log2(m: nat) -> nat
    decreases m,
{
    if m < 2 {
        0
    } else {
        1 + log2(m / 2)
    }
}

/// For an integer `m` with `1 <= m < 2^31`: the `s` for which the half-gap
/// between `m` and the 64-bit float just below it is `2^-s`. Floats in
/// `[2^e, 2^(e+1))` lie `2^(e-52)` apart, so the half-gap is `2^(e-53)`, and
/// `2^(e-54)` where `m` is `2^e` itself.
pub open spec fn round_up_places(m: nat) -> nat {
    if exp2(log2(m)) == m {
        (54 - log2(m)) as nat
    } else {
        (53 - log2(m)) as nat
    }
}

/// The decimal place `j` (from 0) after the point of the number whose
/// digits are `ds` with the point after the first `q` of them.
pub open spec fn frac_digit(ds: Seq<char>, q: int, j: int) -> char {
    if 0 <= q + j < ds.len() {
        ds[q + j]
    } else {
        '0'
    }
}

/// The first `s` decimal places of that number.
pub open spec fn frac_places(ds: Seq<char>, q: int, s: nat) -> Seq<char> {
    Seq::new(s, |j: int| frac_digit(ds, q, j))
}

/// The number rounds up to the next integer `m` as a 64-bit float: its
/// fraction is at least `1 - 2^-s`, where `2^-s` is the half-gap below `m`
/// (ties go to `m`, whose mantissa is even). `1 - 2^-s` is
/// `(10^s - 5^s) / 10^s`, exactly `s` decimal places, so those places decide.
pub open spec fn rounds_up(ds: Seq<char>, q: int, m: nat) -> bool {
    let s = round_up_places(m);
    digits_value(frac_places(ds, q, s)) + exp5(s) >= pow10(s)
}

/// The integer part, saturated at `i32::MAX`, of the 64-bit float nearest
/// to the number whose digits are `ds` with the point after `q` of them.
/// Rounding never crosses an integer downward, and upward only into the next.
pub open spec fn float_count(ds: Seq<char>, q: int) -> nat {
    let n = cap_count(int_part(ds, q));
    if n == COUNT_CAP {
        n
    } else if rounds_up(ds, q, n + 1) {
        n + 1
    } else {
        n
    }
}

/// How many times a run-length group repeats its delta: the numeral read as
/// the nearest 64-bit float (round half to even), truncated toward zero and
/// saturated into `i32`, where a negative result or `nan` repeats nothing.
pub open spec fn repeat_count(s: Seq<char>) -> nat {
    let b = unsigned(s);
    if s.len() > 0 && s[0] == '-' {
        0
    } else if is_nan_word(b) {
        0
    } else if is_inf_word(b) {
        COUNT_CAP as nat
    } else {
        float_count(decimal_digits(b), decimal_point(b))
    }
}

proof fn lemma_span_exact(s: Seq<char>, a: char, b: char, n: int)
    requires
        0 <= n <= s.len(),
        forall|k: int| 0 <= k < n ==> #[trigger] s[k] != a && s[k] != b,
        n < s.len() ==> (s[n] == a || s[n] == b),
    ensures
        span_until(s, a, b) == n,
    decreases n,
{
    if n > 0 {
        assert forall|k: int| 0 <= k < n - 1 implies #[trigger] s.drop_first()[k] != a
            && s.drop_first()[k] != b by {
            assert(s.drop_first()[k] == s[k + 1]);
        }
        if n - 1 < s.drop_first().len() {
            assert(s.drop_first()[n - 1] == s[n]);
        }
        lemma_span_exact(s.drop_first(), a, b, n - 1);
    }
}

proof fn lemma_pow10_positive(n: nat)
    ensures
        pow10(n) >= 1,
    decreases n,
{
    if n > 0 {
        lemma_pow10_positive((n - 1) as nat);
    }
}

proof fn lemma_pow10_mono(a: nat, b: nat)
    requires
        a <= b,
    ensures
        pow10(a) <= pow10(b),
    decreases b,
{
    if a < b {
        lemma_pow10_mono(a, (b - 1) as nat);
        lemma_pow10_positive((b - 1) as nat);
    }
}

/// Past ten appended zeros every nonzero digit string exceeds the count cap.
proof fn lemma_int_part_far(ds: Seq<char>, q1: int, q2: int)
    requires
        q1 >= ds.len() + 10,
        q2 >= ds.len() + 10,
    ensures
        cap_count(int_part(ds, q1)) == cap_count(int_part(ds, q2)),
{
    let v = digits_value(ds);
    reveal_with_fuel(pow10, 11);
    assert(pow10(10) == 10000000000nat);
    lemma_pow10_mono(10, (q1 - ds.len()) as nat);
    lemma_pow10_mono(10, (q2 - ds.len()) as nat);
    let p1 = pow10((q1 - ds.len()) as nat);
    let p2 = pow10((q2 - ds.len()) as nat);
    if v > 0 {
        assert(v * p1 >= p1) by (nonlinear_arith)
            requires
                v >= 1,
        ;
        assert(v * p2 >= p2) by (nonlinear_arith)
            requires
                v >= 1,
        ;
    } else {
        assert(v * p1 == 0 && v * p2 == 0) by (nonlinear_arith)
            requires
                v == 0,
        ;
    }
}

/// The first position in `lo..hi` that holds `a` or `b`, or `hi`.
fn find_either(v: &Vec<char>, lo: usize, hi: usize, a: char, b: char) -> (r: usize)
    requires
        lo <= hi <= v@.len(),
    ensures
        lo <= r <= hi,
        r - lo == span_until(v@.subrange(lo as int, hi as int), a, b),
{
    let mut i: usize = lo;
    while i < hi && v[i] != a && v[i] != b
        invariant
            lo <= i <= hi <= v@.len(),
            forall|k: int| lo <= k < i ==> #[trigger] v@[k] != a && v@[k] != b,
        decreases hi - i,
    {
        i = i + 1;
    }
    proof {
        let s = v@.subrange(lo as int, hi as int);
        assert forall|k: int| 0 <= k < i - lo implies #[trigger] s[k] != a && s[k] != b by {
            assert(s[k] == v@[lo + k]);
        }
        lemma_span_exact(s, a, b, i - lo);
    }
    i
}

fn all_digits_in(v: &Vec<char>, lo: usize, hi: usize) -> (r: bool)
    requires
        lo <= hi <= v@.len(),
    ensures
        r == all_digits(v@.subrange(lo as int, hi as int)),
{
    let mut i: usize = lo;
    while i < hi
        invariant
            lo <= i <= hi <= v@.len(),
            forall|k: int| lo <= k < i ==> is_digit(#[trigger] v@[k]),
        decreases hi - i,
    {
        if !('0' <= v[i] && v[i] <= '9') {
            assert(v@.subrange(lo as int, hi as int)[i - lo] == v@[i as int]);
            return false;
        }
        i = i + 1;
    }
    assert forall|k: int| 0 <= k < hi - lo implies is_digit(
        #[trigger] v@.subrange(lo as int, hi as int)[k],
    ) by {
        assert(v@.subrange(lo as int, hi as int)[k] == v@[lo + k]);
    }
    true
}

fn matches_ci_in(v: &Vec<char>, lo: usize, hi: usize, lw: &Vec<char>, up: &Vec<char>) -> (r: bool)
    requires
        lo <= hi <= v@.len(),
        lw@.len() == up@.len(),
    ensures
        r == matches_ci(v@.subrange(lo as int, hi as int), lw@, up@),
{
    let ghost s = v@.subrange(lo as int, hi as int);
    if hi - lo != lw.len() {
        return false;
    }
    let mut i: usize = 0;
    while i < lw.len()
        invariant
            lo <= hi <= v@.len(),
            s == v@.subrange(lo as int, hi as int),
            hi - lo == lw@.len(),
            lw@.len() == up@.len(),
            i <= lw@.len(),
            forall|k: int| 0 <= k < i ==> (s[k] == lw@[k] || s[k] == up@[k]),
        decreases lw@.len() - i,
    {
        assert(s[i as int] == v@[lo + i]);
        if v[lo + i] != lw[i] && v[lo + i] != up[i] {
            return false;
        }
        i = i + 1;
    }
    true
}

fn is_inf_in(v: &Vec<char>, lo: usize, hi: usize) -> (r: bool)
    requires
        lo <= hi <= v@.len(),
    ensures
        r == is_inf_word(v@.subrange(lo as int, hi as int)),
{
    let lw = vec!['i', 'n', 'f'];
    let up = vec!['I', 'N', 'F'];
    let lw8 = vec!['i', 'n', 'f', 'i', 'n', 'i', 't', 'y'];
    let up8 = vec!['I', 'N', 'F', 'I', 'N', 'I', 'T', 'Y'];
    matches_ci_in(v, lo, hi, &lw, &up) || matches_ci_in(v, lo, hi, &lw8, &up8)
}

fn is_nan_in(v: &Vec<char>, lo: usize, hi: usize) -> (r: bool)
    requires
        lo <= hi <= v@.len(),
    ensures
        r == is_nan_word(v@.subrange(lo as int, hi as int)),
{
    let lw = vec!['n', 'a', 'n'];
    let up = vec!['N', 'A', 'N'];
    matches_ci_in(v, lo, hi, &lw, &up)
}

/// Where the unsigned part of `v` begins.
fn sign_len(v: &Vec<char>) -> (r: usize)
    ensures
        r <= v@.len(),
        v@.subrange(r as int, v@.len() as int) == unsigned(v@),
        r == 1 <==> (v@.len() > 0 && is_sign(v@[0])),
{
    if v.len() > 0 && (v[0] == '+' || v[0] == '-') {
        assert(v@.subrange(1, v@.len() as int) == v@.drop_first());
        1
    } else {
        assert(v@.subrange(0, v@.len() as int) == v@);
        0
    }
}

/// Whether `v` is a numeral.
pub fn is_numeral_chars(v: &Vec<char>) -> (r: bool)
    ensures
        r == is_numeral(v@),
{
    let n = v.len();
    let lo = sign_len(v);
    let ghost b = unsigned(v@);
    if is_inf_in(v, lo, n) || is_nan_in(v, lo, n) {
        return true;
    }
    let k = find_either(v, lo, n, 'e', 'E');
    let ghost kr = (k - lo) as int;
    assert(b.take(kr) == v@.subrange(lo as int, k as int));
    let p = find_either(v, lo, k, '.', '.');
    let ghost m = b.take(kr);
    let mantissa_ok = if p == k {
        p > lo && all_digits_in(v, lo, k)
    } else {
        assert(m.take(p - lo) == v@.subrange(lo as int, p as int));
        assert(m.skip(p - lo + 1) == v@.subrange(p + 1, k as int));
        all_digits_in(v, lo, p) && all_digits_in(v, p + 1, k) && k - lo > 1
    };
    if !mantissa_ok {
        return false;
    }
    if k == n {
        return true;
    }
    let ghost x = b.skip(kr + 1);
    assert(x == v@.subrange(k + 1, n as int));
    let elo = if k + 1 < n && (v[k + 1] == '+' || v[k + 1] == '-') {
        k + 2
    } else {
        k + 1
    };
    assert(unsigned(x) == v@.subrange(elo as int, n as int));
    elo < n && all_digits_in(v, elo, n)
}

/// `min(digits_value(v[lo..hi]), cap)`, computed without overflow.
fn digits_capped(v: &Vec<char>, lo: usize, hi: usize, cap: u128) -> (r: u128)
    requires
        lo <= hi <= v@.len(),
        all_digits(v@.subrange(lo as int, hi as int)),
        cap <= EXP_CAP,
    ensures
        r as nat == if digits_value(v@.subrange(lo as int, hi as int)) < cap {
            digits_value(v@.subrange(lo as int, hi as int))
        } else {
            cap as nat
        },
{
    let mut acc: u128 = 0;
    let mut i: usize = lo;
    assert(v@.subrange(lo as int, lo as int) == Seq::<char>::empty());
    while i < hi
        invariant
            lo <= i <= hi <= v@.len(),
            all_digits(v@.subrange(lo as int, hi as int)),
            cap <= EXP_CAP,
            acc <= cap,
            acc as nat == if digits_value(v@.subrange(lo as int, i as int)) < cap {
                digits_value(v@.subrange(lo as int, i as int))
            } else {
                cap as nat
            },
        decreases hi - i,
    {
        let ghost prev = v@.subrange(lo as int, i as int);
        let ghost next = v@.subrange(lo as int, i + 1);
        assert(next.drop_last() == prev);
        assert(next.last() == v@[i as int]);
        assert(v@.subrange(lo as int, hi as int)[i - lo] == v@[i as int]);
        let d = (v[i] as u32 - '0' as u32) as u128;
        assert(d as nat == digit_of(next.last()));
        assert(digits_value(next) == digits_value(prev) * 10 + d);
        if acc * 10 + d < cap {
            acc = acc * 10 + d;
        } else {
            assert(digits_value(prev) * 10 + d >= cap) by (nonlinear_arith)
                requires
                    acc * 10 + d >= cap,
                    acc as int == digits_value(prev) || (acc == cap && digits_value(prev) >= cap),
            ;
            acc = cap;
        }
        i = i + 1;
    }
    acc
}

/// `cap_count(int_part(ds, q))`, computed without overflow.
fn int_part_capped(ds: &Vec<char>, q: i128) -> (r: u64)
    requires
        all_digits(ds@),
    ensures
        r as nat == cap_count(int_part(ds@, q as int)),
{
    let n = ds.len();
    assert(ds@.subrange(0, n as int) == ds@);
    if q <= 0 {
        return 0;
    }
    if q <= n as i128 {
        assert(ds@.subrange(0, q as int) == ds@.take(q as int));
        assert(all_digits(ds@.subrange(0, q as int)));
        let v = digits_capped(ds, 0, q as usize, COUNT_CAP as u128);
        return v as u64;
    }
    let ghost dv = digits_value(ds@);
    let ghost big_r = (q - n as i128) as nat;
    let mut acc = digits_capped(ds, 0, n, COUNT_CAP as u128) as u64;
    let mut r: u128 = (q - n as i128) as u128;
    assert(pow10(0) == 1);
    assert(dv * pow10(0) == dv);
    while r > 0 && 0 < acc && acc < COUNT_CAP
        invariant
            r <= big_r,
            acc as nat == cap_count(dv * pow10((big_r - r) as nat)),
            big_r == q - ds@.len(),
            dv == digits_value(ds@),
        decreases r,
    {
        let ghost x = (big_r - r) as nat;
        assert(pow10(x + 1) == 10 * pow10(x));
        assert(dv * pow10(x + 1) == 10 * (dv * pow10(x))) by (nonlinear_arith)
            requires
                pow10(x + 1) == 10 * pow10(x),
        ;
        if acc * 10 < COUNT_CAP {
            acc = acc * 10;
        } else {
            acc = COUNT_CAP;
        }
        r = r - 1;
    }
    proof {
        let x = (big_r - r) as nat;
        lemma_pow10_mono(x, big_r);
        lemma_pow10_positive(x);
        if acc == 0 {
            if dv > 0 {
                assert(dv * pow10(x) >= 1) by (nonlinear_arith)
                    requires
                        dv >= 1,
                        pow10(x) >= 1,
                ;
            }
            assert(dv * pow10(big_r) == 0) by (nonlinear_arith)
                requires
                    dv == 0,
            ;
        } else if acc == COUNT_CAP {
            assert(dv * pow10(x) <= dv * pow10(big_r)) by (nonlinear_arith)
                requires
                    pow10(x) <= pow10(big_r),
            ;
        }
        assert(int_part(ds@, q as int) == dv * pow10(big_r));
    }
    acc
}

/// The digits of the mantissa `v[lo..k]`, whose point, if any, stands at `p`.
fn mantissa_digits_of(v: &Vec<char>, lo: usize, p: usize, k: usize) -> (r: Vec<char>)
    requires
        lo <= p <= k <= v@.len(),
        p - lo == span_until(v@.subrange(lo as int, k as int), '.', '.'),
    ensures
        r@ == mantissa_digits(v@.subrange(lo as int, k as int)),
{
    let mut r: Vec<char> = Vec::new();
    let mut i: usize = lo;
    while i < k
        invariant
            lo <= p <= k <= v@.len(),
            lo <= i <= k,
            r@ == if i <= p {
                v@.subrange(lo as int, i as int)
            } else {
                v@.subrange(lo as int, p as int) + v@.subrange(p + 1, i as int)
            },
        decreases k - i,
    {
        if i != p {
            r.push(v[i]);
        }
        proof {
            if i < p {
                assert(v@.subrange(lo as int, i + 1) == v@.subrange(lo as int, i as int).push(v@[i as int]));
            } else if i == p {
                assert(v@.subrange(p + 1, i + 1) == Seq::<char>::empty());
                assert(r@ == v@.subrange(lo as int, p as int) + v@.subrange(p + 1, i + 1));
            } else {
                assert(v@.subrange(p + 1, i + 1) == v@.subrange(p + 1, i as int).push(v@[i as int]));
                assert(r@ == v@.subrange(lo as int, p as int) + v@.subrange(p + 1, i + 1));
            }
        }
        i = i + 1;
    }
    proof {
        let m = v@.subrange(lo as int, k as int);
        if p < k {
            assert(m.take(p - lo) == v@.subrange(lo as int, p as int));
            assert(m.skip(p - lo + 1) == v@.subrange(p + 1, k as int));
        }
    }
    r
}

/// The nines' complement of a string of digits, as a number.
spec fn comp_value(d: Seq<char>) -> nat
    decreases d.len(),
{
    if d.len() == 0 {
        0
    } else {
        comp_value(d.drop_last()) * 10 + (9 - digit_of(d.last())) as nat
    }
}

proof fn lemma_comp_value(d: Seq<char>)
    requires
        all_digits(d),
    ensures
        comp_value(d) + digits_value(d) + 1 == pow10(d.len()),
    decreases d.len(),
{
    if d.len() > 0 {
        let p = d.drop_last();
        assert forall|i: int| 0 <= i < p.len() implies is_digit(#[trigger] p[i]) by {
            assert(p[i] == d[i]);
        }
        lemma_comp_value(p);
        assert(is_digit(d[d.len() - 1]));
        assert(pow10(d.len()) == 10 * pow10(p.len()));
    }
}

proof fn lemma_exp2_mono(a: nat, b: nat)
    requires
        a <= b,
    ensures
        exp2(a) <= exp2(b),
    decreases b,
{
    if a < b {
        lemma_exp2_mono(a, (b - 1) as nat);
    }
}

proof fn lemma_exp5_mono(a: nat, b: nat)
    requires
        a <= b,
    ensures
        exp5(a) <= exp5(b),
    decreases b,
{
    if a < b {
        lemma_exp5_mono(a, (b - 1) as nat);
    }
}

proof fn lemma_log2_exact(m: nat, e: nat)
    requires
        exp2(e) <= m < 2 * exp2(e),
    ensures
        log2(m) == e,
    decreases e,
{
    if e > 0 {
        assert(exp2(e) == 2 * exp2((e - 1) as nat));
        lemma_exp2_mono(1, e);
        assert(exp2(1) == 2) by {
            reveal_with_fuel(exp2, 2);
        }
        lemma_log2_exact(m / 2, (e - 1) as nat);
    }
}

/// Numbers whose point stands far beyond their digits, or far before them,
/// give the same count wherever exactly the point stands.
proof fn lemma_float_count_far(ds: Seq<char>, q1: int, q2: int)
    requires
        (q1 >= ds.len() + 10 && q2 >= ds.len() + 10) || (q1 <= -54 && q2 <= -54),
    ensures
        float_count(ds, q1) == float_count(ds, q2),
{
    if q1 >= ds.len() + 10 {
        lemma_int_part_far(ds, q1, q2);
        let n = cap_count(int_part(ds, q1));
        let s = round_up_places(n + 1);
        assert(frac_places(ds, q1, s) == frac_places(ds, q2, s));
    } else {
        assert(int_part(ds, q1) == 0 && int_part(ds, q2) == 0);
        assert(log2(1) == 0);
        assert(exp2(0) == 1);
        assert(round_up_places(1) == 54);
        assert(frac_places(ds, q1, 54) == frac_places(ds, q2, 54));
    }
}

/// `float_count(ds, q)`, computed without overflow.
fn float_count_of(ds: &Vec<char>, q: i128) -> (r: u64)
    requires
        all_digits(ds@),
        q <= 2 * EXP_CAP,
    ensures
        r as nat == float_count(ds@, q as int),
        r <= COUNT_CAP,
{
    let n = int_part_capped(ds, q);
    if n == COUNT_CAP {
        return n;
    }
    let m: u64 = n + 1;
    let mut p: u64 = 1;
    let mut e: u64 = 0;
    assert(exp2(0) == 1);
    while p <= m / 2
        invariant
            1 <= m <= COUNT_CAP,
            p == exp2(e as nat),
            1 <= p <= m,
            e <= 30,
        decreases m - p,
    {
        proof {
            if e + 1 > 30 {
                lemma_exp2_mono(31, (e + 1) as nat);
                assert(exp2(31) == 2147483648nat) by {
                    reveal_with_fuel(exp2, 32);
                }
            }
        }
        p = p * 2;
        e = e + 1;
    }
    proof {
        lemma_log2_exact(m as nat, e as nat);
    }
    let s: u64 = if p == m {
        54 - e
    } else {
        53 - e
    };
    assert(s == round_up_places(m as nat));
    let mut cap: u128 = 1;
    let mut k: u64 = 0;
    assert(exp5(0) == 1);
    proof {
        assert(exp5(54) == 55511151231257827021181583404541015625nat) by {
            reveal_with_fuel(exp5, 55);
        }
    }
    while k < s
        invariant
            k <= s <= 54,
            cap == exp5(k as nat),
            exp5(54) == 55511151231257827021181583404541015625nat,
        decreases s - k,
    {
        proof {
            lemma_exp5_mono((k + 1) as nat, 54);
        }
        cap = cap * 5;
        k = k + 1;
    }
    let len = ds.len();
    let mut acc: u128 = 0;
    let mut j: u64 = 0;
    assert(frac_places(ds@, q as int, 0) == Seq::<char>::empty());
    proof {
        lemma_exp5_mono(0, s as nat);
        lemma_exp5_mono(s as nat, 54);
    }
    while j < s
        invariant
            j <= s <= 54,
            len == ds@.len(),
            all_digits(ds@),
            q <= 2 * EXP_CAP,
            cap == exp5(s as nat),
            cap >= 1,
            cap <= 55511151231257827021181583404541015625u128,
            acc <= cap,
            acc as nat == if comp_value(frac_places(ds@, q as int, j as nat)) < cap {
                comp_value(frac_places(ds@, q as int, j as nat))
            } else {
                cap as nat
            },
        decreases s - j,
    {
        let ghost prev = frac_places(ds@, q as int, j as nat);
        let ghost next = frac_places(ds@, q as int, (j + 1) as nat);
        assert(next.drop_last() == prev);
        let idx: i128 = q + j as i128;
        let c = if 0 <= idx && idx < len as i128 {
            assert(is_digit(ds@[idx as int]));
            ds[idx as usize]
        } else {
            '0'
        };
        assert(next.last() == c);
        assert(is_digit(c));
        let x: u128 = 9 - (c as u32 - '0' as u32) as u128;
        assert(comp_value(next) == comp_value(prev) * 10 + x);
        if acc > cap / 10 {
            assert(comp_value(prev) * 10 + x >= cap) by (nonlinear_arith)
                requires
                    acc > cap / 10,
                    cap >= 1,
                    acc as int == comp_value(prev) || (acc == cap && comp_value(prev) >= cap),
            ;
            acc = cap;
        } else {
            assert(acc * 10 <= cap) by (nonlinear_arith)
                requires
                    acc <= cap / 10,
            ;
            let t = acc * 10 + x;
            if t < cap {
                acc = t;
            } else {
                assert(comp_value(prev) * 10 + x >= cap) by (nonlinear_arith)
                    requires
                        t >= cap,
                        t == acc * 10 + x,
                        acc as int == comp_value(prev) || (acc == cap && comp_value(prev)
                            >= cap),
                ;
                acc = cap;
            }
        }
        j = j + 1;
    }
    proof {
        let f = frac_places(ds@, q as int, s as nat);
        assert forall|i: int| 0 <= i < f.len() implies is_digit(#[trigger] f[i]) by {
            if 0 <= q + i < ds@.len() {
                assert(is_digit(ds@[q + i]));
            }
        }
        lemma_comp_value(f);
    }
    if acc < cap {
        m
    } else {
        n
    }
}

/// `repeat_count` of a numeral.
#[verifier::rlimit(50)]
fn repeat_count_chars(v: &Vec<char>) -> (r: u64)
    requires
        is_numeral(v@),
    ensures
        r as nat == repeat_count(v@),
{
    let n = v.len();
    if n > 0 && v[0] == '-' {
        return 0;
    }
    let lo = sign_len(v);
    let ghost b = unsigned(v@);
    if is_nan_in(v, lo, n) {
        return 0;
    }
    if is_inf_in(v, lo, n) {
        return COUNT_CAP;
    }
    let k = find_either(v, lo, n, 'e', 'E');
    let ghost kr = (k - lo) as int;
    let ghost m = b.take(kr);
    assert(m == v@.subrange(lo as int, k as int));
    let p = find_either(v, lo, k, '.', '.');
    let ds = mantissa_digits_of(v, lo, p, k);
    proof {
        let pr = (p - lo) as int;
        if p < k {
            assert forall|i: int| 0 <= i < ds@.len() implies is_digit(#[trigger] ds@[i]) by {
                if i < pr {
                    assert(ds@[i] == m.take(pr)[i]);
                } else {
                    assert(ds@[i] == m.skip(pr + 1)[i - pr]);
                }
            }
        }
    }
    let ghost q_exact: int;
    let e: i128 = if k == n {
        proof {
            q_exact = p - lo;
        }
        0
    } else {
        let ghost x = b.skip(kr + 1);
        assert(x == v@.subrange(k + 1, n as int));
        let elo = if k + 1 < n && (v[k + 1] == '+' || v[k + 1] == '-') {
            k + 2
        } else {
            k + 1
        };
        assert(unsigned(x) == v@.subrange(elo as int, n as int));
        let mag = digits_capped(v, elo, n, EXP_CAP);
        proof {
            q_exact = (p - lo) + exponent_value(x);
        }
        if v[k + 1] == '-' {
            -(mag as i128)
        } else {
            mag as i128
        }
    };
    let q = (p - lo) as i128 + e;
    assert(q <= 2 * EXP_CAP);
    let r = float_count_of(&ds, q);
    proof {
        assert(decimal_digits(b) == ds@ && decimal_point(b) == q_exact);
        assert(ds@.len() <= v@.len());
        if q_exact != q {
            lemma_float_count_far(ds@, q as int, q_exact);
        }
    }
    r
}

/// A numeral as written in attribute text: the text of a 64-bit float, kept
/// as written.
pub struct Numeral {
    text: String,
}

impl View for Numeral {
    type V = Seq<char>;

    closed spec fn view(&self) -> Seq<char> {
        self.text@
    }
}

impl Clone for Numeral {
    fn clone(&self) -> (r: Numeral)
        ensures
            r@ == self@,
    {
        proof {
            use_type_invariant(self);
        }
        Numeral { text: self.text.clone() }
    }
}

impl Numeral {
    #[verifier::type_invariant]
    spec fn inv(self) -> bool {
        is_numeral(self.text@)
    }

    /// The numeral that `t` spells, if it spells one.
    pub fn parse(t: &str) -> (r: Option<Numeral>)
        ensures
            r is Some <==> is_numeral(t@),
            r matches Some(x) ==> x@ == t@,
    {
        let cs = chars_of(t);
        if is_numeral_chars(&cs) {
            Some(Numeral { text: t.to_owned() })
        } else {
            None
        }
    }

    /// The numeral's text.
    pub fn as_str(&self) -> (r: &str)
        ensures
            r@ == self@,
            is_numeral(r@),
    {
        proof {
            use_type_invariant(self);
        }
        self.text.as_str()
    }

    /// How many times a run-length group with this count repeats its delta:
    /// the count read as the nearest 64-bit float, truncated toward zero and
    /// saturated into `i32`; nothing for a negative count or `nan`.
    pub fn repeat_count(&self) -> (r: u64)
        ensures
            r as nat == repeat_count(self@),
            r <= COUNT_CAP,
    {
        proof {
            use_type_invariant(self);
        }
        let cs = chars_of(self.text.as_str());
        repeat_count_chars(&cs)
    }
}

proof fn lemma_span_props(s: Seq<char>, a: char, b: char)
    ensures
        span_until(s, a, b) <= s.len(),
        forall|k: int| 0 <= k < span_until(s, a, b) ==> #[trigger] s[k] != a && s[k] != b,
        span_until(s, a, b) < s.len() ==> (s[span_until(s, a, b) as int] == a || s[span_until(
            s,
            a,
            b,
        ) as int] == b),
    decreases s.len(),
{
    if s.len() > 0 && s[0] != a && s[0] != b {
        lemma_span_props(s.drop_first(), a, b);
        assert forall|k: int| 0 <= k < span_until(s, a, b) implies #[trigger] s[k] != a && s[k]
            != b by {
            if k > 0 {
                assert(s[k] == s.drop_first()[k - 1]);
            }
        }
    }
}

/// Each character of `w` is one of the two letters at its place in `lo` and `up`.
proof fn lemma_letters_not_ws(w: Seq<char>, lo: Seq<char>, up: Seq<char>)
    requires
        matches_ci(w, lo, up),
        lo.len() == up.len(),
        forall|i: int| 0 <= i < lo.len() ==> 'A' <= #[trigger] lo[i] <= 'z',
        forall|i: int| 0 <= i < up.len() ==> 'A' <= #[trigger] up[i] <= 'z',
    ensures
        forall|i: int| 0 <= i < w.len() ==> !is_ws(#[trigger] w[i]),
{
    assert forall|i: int| 0 <= i < w.len() implies !is_ws(#[trigger] w[i]) by {
        assert(w[i] == lo[i] || w[i] == up[i]);
    }
}

/// A numeral is a non-empty text without whitespace.
pub proof fn lemma_numeral_is_word(s: Seq<char>)
    requires
        is_numeral(s),
    ensures
        is_word(s),
{
    let b = unsigned(s);
    let off = s.len() - b.len();
    assert(off == 0 || (off == 1 && is_sign(s[0])));
    assert forall|i: int| off <= i < s.len() implies s[i] == #[trigger] b[i - off] by {}
    let inf3 = seq!['i', 'n', 'f'];
    let inf3u = seq!['I', 'N', 'F'];
    let inf8 = seq!['i', 'n', 'f', 'i', 'n', 'i', 't', 'y'];
    let inf8u = seq!['I', 'N', 'F', 'I', 'N', 'I', 'T', 'Y'];
    let nan = seq!['n', 'a', 'n'];
    let nanu = seq!['N', 'A', 'N'];
    if matches_ci(b, inf3, inf3u) {
        lemma_letters_not_ws(b, inf3, inf3u);
    } else if matches_ci(b, inf8, inf8u) {
        lemma_letters_not_ws(b, inf8, inf8u);
    } else if matches_ci(b, nan, nanu) {
        lemma_letters_not_ws(b, nan, nanu);
    } else {
        assert(is_decimal(b));
        let k = mantissa_len(b);
        lemma_span_props(b, 'e', 'E');
        let m = b.take(k);
        let p = span_until(m, '.', '.') as int;
        lemma_span_props(m, '.', '.');
        assert forall|j: int| 0 <= j < b.len() implies !is_ws(#[trigger] b[j]) by {
            if j < k {
                assert(b[j] == m[j]);
                if j < p {
                    assert(m[j] == m.take(p)[j]);
                } else if j > p {
                    assert(m[j] == m.skip(p + 1)[j - p - 1]);
                }
            } else if j > k {
                let x = b.skip(k + 1);
                assert(b[j] == x[j - k - 1]);
                if j - k - 1 > 0 || !is_sign(x[0]) {
                    let u = unsigned(x);
                    if x.len() > 0 && is_sign(x[0]) {
                        assert(x[j - k - 1] == u[j - k - 2]);
                    } else {
                        assert(x[j - k - 1] == u[j - k - 1]);
                    }
                }
            }
        }
    }
    assert forall|i: int| 0 <= i < s.len() implies !is_ws(#[trigger] s[i]) by {
        if i >= off {
            assert(s[i] == b[i - off]);
        }
    }
}

} // verus!
