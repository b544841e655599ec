//! Amounts as `f64::from_str` reads them, scaled to whole KB exactly: an
//! optional sign, then `inf`, `infinity` or `nan` in any case, or digits
//! with at most one decimal point and an optional exponent (`1.5e3`).

use vstd::prelude::*;
use vstd::string::*;
use crate::text::{all_digits, digits_value, first_match, pow10, is_digit, find_from, slice_vec, lemma_first_match, matches_at};
use super::{scaled_parts, scale_parts, frac20, digit_cap, digits_capped, all_digit_chars, lemma_pow10_le};

verus! {

// ───────────────────────────── the grammar ─────────────────────────────

/// The sign of a number (`true` for a leading `-`) and the text after it.
pub open spec fn sign_split(s: Seq<char>) -> (bool, Seq<char>) {
    let neg = s.len() > 0 && s[0] == '-';
    let body = if s.len() > 0 && (s[0] == '-' || s[0] == '+') {
        s.drop_first()
    } else {
        s
    };
    (neg, body)
}

/// `c` is the lower-case ASCII letter `l` in either case.
pub open spec fn letter_is(c: char, l: char) -> bool {
    (c as u32) == (l as u32) || (c as u32) + 32 == (l as u32)
}

/// `s` spells the lower-case word `l`, in any case.
pub open spec fn word_is(s: Seq<char>, l: Seq<char>) -> bool {
    s.len() == l.len() && forall|i: int| 0 <= i < s.len() ==> letter_is(#[trigger] s[i], l[i])
}

/// An infinity: `inf` or `infinity`, in any case.
pub open spec fn infinite_word(b: Seq<char>) -> bool {
    word_is(b, "inf"@) || word_is(b, "infinity"@)
}

/// Not a number: `nan`, in any case.
pub open spec fn nan_word(b: Seq<char>) -> bool {
    word_is(b, "nan"@)
}

/// The exponent mark.
pub open spec fn is_e(c: char) -> bool {
    c == 'e' || c == 'E'
}

/// The position of the first exponent mark in `b`.
pub open spec fn first_e(b: Seq<char>) -> Option<int>
    decreases b.len(),
{
    if b.len() == 0 {
        None
    } else if is_e(b[0]) {
        Some(0)
    } else {
        match first_e(b.drop_first()) {
            Some(i) => Some(i + 1),
            None => None,
        }
    }
}

proof fn lemma_first_e(b: Seq<char>)
    ensures
        match first_e(b) {
            Some(i) => 0 <= i < b.len(),
            None => true,
        },
    decreases b.len(),
{
    if b.len() > 0 && !is_e(b[0]) {
        lemma_first_e(b.drop_first());
    }
}

/// Digits with at most one decimal point and a digit on at least one side:
/// the whole digits and the fraction digits.
pub open spec fn mantissa_parts(m: Seq<char>) -> Option<(Seq<char>, Seq<char>)> {
    let w = match first_match(m, seq!['.']) {
        Some(i) => m.take(i),
        None => m,
    };
    let f = match first_match(m, seq!['.']) {
        Some(i) => m.skip(i + 1),
        None => Seq::empty(),
    };
    if all_digits(w) && all_digits(f) && w.len() + f.len() > 0 {
        Some((w, f))
    } else {
        None
    }
}

/// An exponent: an optional sign, then at least one digit.
pub open spec fn exp_value(t: Seq<char>) -> Option<int> {
    let (neg, d) = sign_split(t);
    if d.len() > 0 && all_digits(d) {
        Some(if neg { -(digits_value(d) as int) } else { digits_value(d) as int })
    } else {
        None
    }
}

/// A finite number without its sign: whole digits, fraction digits and the
/// power of ten they are scaled by.
pub open spec fn number_parts(b: Seq<char>) -> Option<(Seq<char>, Seq<char>, int)> {
    match first_e(b) {
        None => match mantissa_parts(b) {
            Some(m) => Some((m.0, m.1, 0)),
            None => None,
        },
        Some(i) => match (mantissa_parts(b.take(i)), exp_value(b.skip(i + 1))) {
            (Some(m), Some(e)) => Some((m.0, m.1, e)),
            _ => None,
        },
    }
}

/// `n` zero digits.
pub open spec fn zeros(n: nat) -> Seq<char> {
    Seq::new(n, |i: int| '0')
}

/// The whole and fraction digits of `w.f × 10^e`: the decimal point moved
/// by `e` places, zeros filling in where it leaves the digits.
pub open spec fn shifted(w: Seq<char>, f: Seq<char>, e: int) -> (Seq<char>, Seq<char>) {
    let d = w + f;
    let p = w.len() + e;
    if p <= 0 {
        (Seq::empty(), zeros((-p) as nat) + d)
    } else if p >= d.len() {
        (d + zeros((p - d.len()) as nat), Seq::empty())
    } else {
        (d.take(p), d.skip(p))
    }
}

/// The whole part of `amount × mul / div` for the amount text `s`, as
/// `(amount * mult) as u64` leaves it: `0` for text that is no number, for
/// a negative amount and for `nan`; `u64::MAX` for a positive infinity and
/// for anything beyond it.
pub open spec fn scaled_amount(s: Seq<char>, mul: nat, div: nat) -> nat {
    let (neg, b) = sign_split(s);
    if infinite_word(b) {
        if neg {
            0
        } else {
            u64::MAX as nat
        }
    } else if nan_word(b) {
        0
    } else {
        match number_parts(b) {
            None => 0,
            Some(n) => if neg {
                0
            } else {
                scaled_parts(shifted(n.0, n.1, n.2).0, shifted(n.0, n.1, n.2).1, mul, div)
            },
        }
    }
}

// ───────────────────────────── lemmas ─────────────────────────────

proof fn lemma_zeros_value(n: nat)
    ensures
        all_digits(zeros(n)),
        digits_value(zeros(n)) == 0,
    decreases n,
{
    if n > 0 {
        lemma_zeros_value((n - 1) as nat);
        assert(zeros(n).drop_last() =~= zeros((n - 1) as nat));
    }
}

proof fn lemma_append_zeros(d: Seq<char>, n: nat)
    ensures
        digits_value(d + zeros(n)) == digits_value(d) * pow10(n),
    decreases n,
{
    if n == 0 {
        assert(d + zeros(0) =~= d);
        assert(pow10(0) == 1);
        assert(digits_value(d) * 1 == digits_value(d));
    } else {
        lemma_append_zeros(d, (n - 1) as nat);
        let x = d + zeros(n);
        assert(x.drop_last() =~= d + zeros((n - 1) as nat));
        assert(x.last() == '0');
        assert(('0' as u32) == 48);
        let a = digits_value(d);
        let q = pow10((n - 1) as nat);
        assert(digits_value(x.drop_last()) == a * q);
        assert(digits_value(x) == digits_value(x.drop_last()) * 10 + ((x.last() as u32) - 48) as nat);
        assert(digits_value(x) == a * q * 10);
        assert(pow10(n) == 10 * q);
        assert(a * q * 10 == a * (10 * q)) by (nonlinear_arith);
        assert(digits_value(x) == a * pow10(n));
    }
}

/// Digits of which one is not `0` spell at least one.
proof fn lemma_nonzero_value(d: Seq<char>, k: int)
    requires
        all_digits(d),
        0 <= k < d.len(),
        (d[k] as u32) != 48,
    ensures
        digits_value(d) >= 1,
    decreases d.len(),
{
    if k < d.len() - 1 {
        assert(all_digits(d.drop_last())) by {
            assert forall|i: int| 0 <= i < d.len() - 1 implies is_digit(#[trigger] d.drop_last()[i]) by {
                assert(d.drop_last()[i] == d[i]);
                assert(is_digit(d[i]));
            }
        }
        assert(d.drop_last()[k] == d[k]);
        lemma_nonzero_value(d.drop_last(), k);
        assert(digits_value(d) == digits_value(d.drop_last()) * 10 + ((d.last() as u32) - 48) as nat);
    } else {
        assert(is_digit(d[k]));
        assert(d.last() == d[k]);
        assert(digits_value(d) == digits_value(d.drop_last()) * 10 + ((d.last() as u32) - 48) as nat);
    }
}

/// Digits that are all `0` spell nothing.
proof fn lemma_zero_value(d: Seq<char>)
    requires
        forall|i: int| 0 <= i < d.len() ==> (d[i] as u32) == 48,
    ensures
        digits_value(d) == 0,
    decreases d.len(),
{
    if d.len() > 0 {
        lemma_zero_value(d.drop_last());
        assert(digits_value(d) == digits_value(d.drop_last()) * 10 + ((d.last() as u32) - 48) as nat);
    }
}

/// The first `n` characters of a run of zeros followed by anything, when
/// there are more than `n` zeros, are zeros.
proof fn lemma_frac20_zeros(k: nat, d: Seq<char>)
    requires
        k > 20,
    ensures
        frac20(zeros(k) + d) == zeros(20),
{
    assert((zeros(k) + d).take(20) =~= zeros(20));
}

/// Far below one unit: more than twenty zeros after the point leave
/// nothing.
proof fn lemma_tiny(k: nat, d: Seq<char>, mul: nat, div: nat)
    requires
        k > 20,
        div >= 1,
    ensures
        scaled_parts(Seq::empty(), zeros(k) + d, mul, div) == 0,
{
    lemma_frac20_zeros(k, d);
    lemma_zeros_value(20);
    assert(digits_value(Seq::<char>::empty()) == 0);
    let dd = pow10(20);
    lemma_pow10_le(20, 20);
    assert(((0 * dd + 0) * mul) / (dd * div) == 0) by (nonlinear_arith)
        requires
            dd >= 1,
            div >= 1,
    ;
}

/// Zeros spell nothing, however far the point moves.
proof fn lemma_zero_digits(d: Seq<char>, k: nat, mul: nat, div: nat)
    requires
        forall|i: int| 0 <= i < d.len() ==> (d[i] as u32) == 48,
        div >= 1,
    ensures
        scaled_parts(d + zeros(k), Seq::empty(), mul, div) == 0,
{
    let x = d + zeros(k);
    assert(('0' as u32) == 48);
    assert forall|i: int| 0 <= i < x.len() implies (x[i] as u32) == 48 by {
        if i < d.len() {
            assert(x[i] == d[i]);
        } else {
            assert(x[i] == zeros(k)[i - d.len()]);
        }
    }
    lemma_zero_value(x);
    assert(frac20(Seq::<char>::empty()) =~= Seq::<char>::empty());
    assert(digits_value(Seq::<char>::empty()) == 0);
    assert(pow10(0) == 1);
    assert(((0 * 1 + 0) * mul) / (1 * div) == 0) by (nonlinear_arith)
        requires
            div >= 1,
    ;
}

/// A non-zero amount moved more than forty places to the left of the point
/// is beyond any KB count.
proof fn lemma_huge(d: Seq<char>, k: nat, mul: nat, div: nat)
    requires
        digits_value(d) >= 1,
        k >= 41,
        1 <= mul,
        1 <= div <= 1024,
    ensures
        scaled_parts(d + zeros(k), Seq::empty(), mul, div) == u64::MAX,
{
    let x = d + zeros(k);
    lemma_append_zeros(d, k);
    lemma_pow10_le(41, k);
    assert(pow10(41) == 100_000_000_000_000_000_000_000_000_000_000_000_000_000) by {
        reveal_with_fuel(pow10, 42);
    }
    let xv = digits_value(x);
    assert(xv >= pow10(41)) by (nonlinear_arith)
        requires
            xv == digits_value(d) * pow10(k),
            digits_value(d) >= 1,
            pow10(k) >= pow10(41),
    ;
    assert(frac20(Seq::<char>::empty()) =~= Seq::<char>::empty());
    assert(digits_value(Seq::<char>::empty()) == 0);
    assert(pow10(0) == 1);
    let v = ((xv * 1 + 0) * mul) / (1 * div);
    assert(v >= xv / 1024) by (nonlinear_arith)
        requires
            v == ((xv * 1 + 0) * mul) / (1 * div),
            1 <= mul,
            1 <= div <= 1024,
    ;
    assert(xv / 1024 > u64::MAX) by (nonlinear_arith)
        requires
            xv >= 100_000_000_000_000_000_000_000_000_000_000_000_000_000,
    ;
}

// ───────────────────────────── reading it ─────────────────────────────

/// The sign of `s` and the text after it.
fn sign_of(s: &[char]) -> (r: (bool, Vec<char>))
    ensures
        r.0 == sign_split(s@).0,
        r.1@ == sign_split(s@).1,
{
    let neg = s.len() > 0 && s[0] == '-';
    let start: usize = if s.len() > 0 && (s[0] == '-' || s[0] == '+') { 1 } else { 0 };
    let body = slice_vec(s, start, s.len());
    proof {
        if start == 1 {
            assert(body@ =~= s@.drop_first());
        } else {
            assert(body@ =~= s@);
        }
    }
    (neg, body)
}

/// Whether `b` spells the lower-case word `l` in any case.
fn word_matches(b: &[char], l: &str) -> (r: bool)
    ensures
        r == word_is(b@, l@),
{
    let lc = crate::text::chars_of(l);
    if b.len() != lc.len() {
        return false;
    }
    let mut i: usize = 0;
    while i < b.len()
        invariant
            i <= b@.len(),
            b@.len() == lc@.len(),
            lc@ == l@,
            forall|k: int| 0 <= k < i ==> letter_is(#[trigger] b@[k], l@[k]),
        decreases b@.len() - i,
    {
        let cu = b[i] as u32;
        let mu = lc[i] as u32;
        if !(cu == mu || (mu >= 32 && cu == mu - 32)) {
            return false;
        }
        i += 1;
    }
    true
}

/// The position of the first exponent mark in `b`.
fn find_e(b: &[char]) -> (r: Option<usize>)
    ensures
        match first_e(b@) {
            Some(i) => r == Some(i as usize),
            None => r is None,
        },
        match r {
            Some(i) => i < b@.len(),
            None => true,
        },
{
    let mut i: usize = 0;
    proof {
        assert(b@.skip(0) =~= b@);
    }
    while i < b.len()
        invariant
            i <= b@.len(),
            match first_e(b@) {
                Some(j) => match first_e(b@.skip(i as int)) {
                    Some(k) => j == k + i,
                    None => false,
                },
                None => first_e(b@.skip(i as int)) is None,
            },
        decreases b@.len() - i,
    {
        let ghost t = b@.skip(i as int);
        proof {
            assert(t[0] == b@[i as int]);
            assert(t.drop_first() =~= b@.skip(i + 1));
        }
        if b[i] == 'e' || b[i] == 'E' {
            return Some(i);
        }
        i += 1;
    }
    proof {
        assert(b@.skip(i as int).len() == 0);
    }
    None
}

/// The whole and fraction digits of a mantissa, as [`mantissa_parts`]
/// reads them.
fn split_mantissa(m: &[char]) -> (r: Option<(Vec<char>, Vec<char>)>)
    ensures
        match mantissa_parts(m@) {
            Some(p) => r matches Some(q) && q.0@ == p.0 && q.1@ == p.1,
            None => r is None,
        },
{
    let pat: Vec<char> = vec!['.'];
    proof {
        assert(pat@ =~= seq!['.']);
        assert(m@.skip(0) =~= m@);
        lemma_first_match(m@, seq!['.']);
    }
    let dot = find_from(m, &pat, 0);
    let (w, f) = match dot {
        Some(i) => {
            proof {
                match first_match(m@, seq!['.']) {
                    Some(j) => {
                        assert(matches_at(m@, seq!['.'], j));
                    },
                    None => {
                        assert(false);
                    },
                }
            }
            (slice_vec(m, 0, i), slice_vec(m, i + 1, m.len()))
        },
        None => (slice_vec(m, 0, m.len()), Vec::new()),
    };
    proof {
        match dot {
            Some(i) => {
                assert(w@ =~= m@.take(i as int));
                assert(f@ =~= m@.skip(i + 1));
            },
            None => {
                assert(w@ =~= m@);
                assert(f@ =~= Seq::<char>::empty());
            },
        }
    }
    if all_digit_chars(&w) && all_digit_chars(&f) && w.len() + f.len() > 0 {
        Some((w, f))
    } else {
        None
    }
}

/// An exponent's sign and its magnitude as [`digits_capped`] leaves it.
fn read_exponent(t: &[char]) -> (r: Option<(bool, u128)>)
    ensures
        match exp_value(t@) {
            None => r is None,
            Some(e) => r matches Some(x) && ({
                let dv = digits_value(sign_split(t@).1);
                &&& e == if x.0 { -(dv as int) } else { dv as int }
                &&& x.1 == if dv >= digit_cap() { digit_cap() } else { dv }
            }),
        },
{
    let (neg, d) = sign_of(t);
    if d.len() == 0 || !all_digit_chars(&d) {
        return None;
    }
    let v = digits_capped(&d);
    Some((neg, v))
}

/// `n` zeros, then `d`.
fn zeros_then(n: usize, d: &[char]) -> (r: Vec<char>)
    ensures
        r@ == zeros(n as nat) + d@,
{
    let mut r: Vec<char> = Vec::new();
    let mut i: usize = 0;
    while i < n
        invariant
            i <= n,
            r@ == zeros(i as nat),
        decreases n - i,
    {
        r.push('0');
        proof {
            assert(r@ =~= zeros((i + 1) as nat));
        }
        i += 1;
    }
    let mut j: usize = 0;
    while j < d.len()
        invariant
            j <= d@.len(),
            r@ == zeros(n as nat) + d@.take(j as int),
        decreases d@.len() - j,
    {
        r.push(d[j]);
        proof {
            assert(r@ =~= zeros(n as nat) + d@.take(j + 1));
        }
        j += 1;
    }
    proof {
        assert(d@.take(d@.len() as int) =~= d@);
    }
    r
}

/// `d`, then `n` zeros.
fn then_zeros(d: &[char], n: usize) -> (r: Vec<char>)
    ensures
        r@ == d@ + zeros(n as nat),
{
    let mut r = slice_vec(d, 0, d.len());
    proof {
        assert(r@ =~= d@ + zeros(0));
    }
    let mut i: usize = 0;
    while i < n
        invariant
            i <= n,
            r@ == d@ + zeros(i as nat),
        decreases n - i,
    {
        r.push('0');
        proof {
            assert(r@ =~= d@ + zeros((i + 1) as nat));
        }
        i += 1;
    }
    r
}

/// Whether some digit of `d` is not `0`.
fn any_nonzero(d: &[char]) -> (r: bool)
    ensures
        r == exists|k: int| 0 <= k < d@.len() && (d@[k] as u32) != 48,
{
    let mut i: usize = 0;
    while i < d.len()
        invariant
            i <= d@.len(),
            forall|k: int| 0 <= k < i ==> (d@[k] as u32) == 48,
        decreases d@.len() - i,
    {
        if d[i] as u32 != 48 {
            return true;
        }
        i += 1;
    }
    false
}

/// `a`, then `b`.
fn joined(a: &[char], b: &[char]) -> (r: Vec<char>)
    ensures
        r@ == a@ + b@,
{
    let mut r = slice_vec(a, 0, a.len());
    let mut j: usize = 0;
    proof {
        assert(r@ =~= a@ + b@.take(0));
    }
    while j < b.len()
        invariant
            j <= b@.len(),
            r@ == a@ + b@.take(j as int),
        decreases b@.len() - j,
    {
        r.push(b[j]);
        proof {
            assert(r@ =~= a@ + b@.take(j + 1));
        }
        j += 1;
    }
    proof {
        assert(b@.take(b@.len() as int) =~= b@);
    }
    r
}

/// The magnitude of `e`.
pub open spec fn magnitude(e: int) -> nat {
    if e < 0 {
        (-e) as nat
    } else {
        e as nat
    }
}

/// A finite number without its sign, as [`number_parts`] reads it: the
/// whole digits, the fraction digits, whether the exponent is negative, and
/// its magnitude as [`digits_capped`] leaves it.
fn read_number(b: &[char]) -> (r: Option<(Vec<char>, Vec<char>, bool, u128)>)
    ensures
        match number_parts(b@) {
            None => r is None,
            Some(n) => r matches Some(x) && {
                &&& x.0@ == n.0
                &&& x.1@ == n.1
                &&& x.0@.len() + x.1@.len() <= b@.len()
                &&& x.3 == if magnitude(n.2) >= digit_cap() { digit_cap() } else { magnitude(n.2) }
                &&& (n.2 < 0 ==> x.2)
                &&& (x.2 ==> n.2 <= 0)
            },
        },
{
    let e_at = find_e(b);
    proof {
        lemma_first_e(b@);
    }
    let (m, et) = match e_at {
        Some(i) => (slice_vec(b, 0, i), Some(slice_vec(b, i + 1, b.len()))),
        None => (slice_vec(b, 0, b.len()), None),
    };
    proof {
        match e_at {
            Some(i) => {
                assert(m@ =~= b@.take(i as int));
                assert(et.unwrap()@ =~= b@.skip(i + 1));
            },
            None => {
                assert(m@ =~= b@);
            },
        }
        lemma_first_match(m@, seq!['.']);
        match first_match(m@, seq!['.']) {
            Some(i) => {
                assert(m@.take(i).len() + m@.skip(i + 1).len() <= m@.len());
            },
            None => {},
        }
    }
    let (w, f) = match split_mantissa(&m) {
        Some(p) => p,
        None => {
            return None;
        },
    };
    match &et {
        None => Some((w, f, false, 0)),
        Some(t) => match read_exponent(t) {
            Some(x) => Some((w, f, x.0, x.1)),
            None => None,
        },
    }
}

/// The whole part of `amount × mul / div` for the amount text `s`, as
/// [`scaled_amount`] states it. The scale is KB per unit: a whole number of
/// KB, or a KB per 1024 units.
pub fn scale_amount(s: &[char], mul: u64, div: u64) -> (r: u64)
    requires
        (div == 1 && (mul == 1 || mul == 1024 || mul == 1048576)) || (div == 1024 && mul == 1),
    ensures
        r == scaled_amount(s@, mul as nat, div as nat),
{
    let (neg, b) = sign_of(s);
    proof {
        reveal_strlit("inf");
        reveal_strlit("infinity");
        reveal_strlit("nan");
    }
    if word_matches(&b, "inf") || word_matches(&b, "infinity") {
        return if neg { 0 } else { u64::MAX };
    }
    if word_matches(&b, "nan") {
        return 0;
    }
    let (w, f, eneg, ev) = match read_number(&b) {
        Some(x) => x,
        None => {
            return 0;
        },
    };
    let ghost e: int = number_parts(b@).unwrap().2;
    let ghost dv: nat = magnitude(e);
    if neg {
        return 0;
    }
    let d = joined(&w, &f);
    let ghost sh = shifted(w@, f@, e);
    proof {
        assert(all_digits(d@)) by {
            assert forall|k: int| 0 <= k < d@.len() implies is_digit(#[trigger] d@[k]) by {
                if k < w@.len() {
                    assert(d@[k] == w@[k]);
                } else {
                    assert(d@[k] == f@[k - w@.len()]);
                }
            }
        }
        assert(scaled_amount(s@, mul as nat, div as nat) == scaled_parts(sh.0, sh.1, mul as nat, div as nat));
    }
    let big: u128 = b.len() as u128 + 64;
    proof {
        assert(big < digit_cap());
    }
    if ev > big {
        if eneg {
            proof {
                assert(w@.len() + e < -20);
                lemma_tiny((-(w@.len() + e)) as nat, d@, mul as nat, div as nat);
            }
            return 0;
        }
        if any_nonzero(&d) {
            proof {
                let k = choose|k: int| 0 <= k < d@.len() && (d@[k] as u32) != 48;
                lemma_nonzero_value(d@, k);
                lemma_huge(d@, (w@.len() + e - d@.len()) as nat, mul as nat, div as nat);
            }
            return u64::MAX;
        }
        proof {
            lemma_zero_digits(d@, (w@.len() + e - d@.len()) as nat, mul as nat, div as nat);
        }
        return 0;
    }
    let p: i128 = w.len() as i128 + if eneg { -(ev as i128) } else { ev as i128 };
    proof {
        assert(ev == dv);
        assert(p == w@.len() + e);
    }
    let dlen = d.len();
    if p < -20 {
        proof {
            lemma_tiny((-p) as nat, d@, mul as nat, div as nat);
        }
        return 0;
    }
    if p > dlen as i128 + 40 {
        if any_nonzero(&d) {
            proof {
                let k = choose|k: int| 0 <= k < d@.len() && (d@[k] as u32) != 48;
                lemma_nonzero_value(d@, k);
                lemma_huge(d@, (p - d@.len()) as nat, mul as nat, div as nat);
            }
            return u64::MAX;
        }
        proof {
            lemma_zero_digits(d@, (p - d@.len()) as nat, mul as nat, div as nat);
        }
        return 0;
    }
    let (w2, f2) = if p <= 0 {
        (Vec::new(), zeros_then((-p) as usize, &d))
    } else if p >= dlen as i128 {
        (then_zeros(&d, (p - dlen as i128) as usize), Vec::new())
    } else {
        (slice_vec(&d, 0, p as usize), slice_vec(&d, p as usize, dlen))
    };
    proof {
        lemma_zeros_value(((-p) as nat));
        lemma_zeros_value(((p - dlen) as nat));
        if p <= 0 {
            assert(w2@ =~= sh.0);
            assert(f2@ =~= sh.1);
        } else if p >= dlen {
            assert(w2@ =~= sh.0);
            assert(f2@ =~= sh.1);
        } else {
            assert(w2@ =~= sh.0);
            assert(f2@ =~= sh.1);
        }
        assert(all_digits(w2@)) by {
            assert forall|k: int| 0 <= k < w2@.len() implies is_digit(#[trigger] w2@[k]) by {
                if p >= dlen && k >= d@.len() {
                    assert(w2@[k] == zeros((p - dlen) as nat)[k - d@.len()]);
                } else if p > 0 {
                    assert(w2@[k] == d@[k]);
                }
            }
        }
        assert(all_digits(f2@)) by {
            assert forall|k: int| 0 <= k < f2@.len() implies is_digit(#[trigger] f2@[k]) by {
                if p <= 0 {
                    if k < -p {
                        assert(f2@[k] == zeros((-p) as nat)[k]);
                    } else {
                        assert(f2@[k] == d@[k + p]);
                    }
                } else if p < dlen {
                    assert(f2@[k] == d@[k + p]);
                }
            }
        }
    }
    scale_parts(&w2, &f2, mul, div)
}

} // verus!
