//! What the package-manager backends share: sizes in KB from a manager's
//! human text (the amount itself is read in [`amount`]), calendar days and timestamps through chrono, and rotated logs
//! that may be gzipped.
//!
//! A backend turns the text its manager prints into a [`World`]; the
//! captures themselves run outside this library, which only ever sees the
//! text they produced.

pub mod amount;
pub mod apt;
pub mod detect;
pub mod dnf;
pub mod pacman;
pub mod flatpak;

use std::io::Read;
use vstd::prelude::*;
use vstd::string::*;
use vstd::arithmetic::div_mod::{lemma_fundamental_div_mod, lemma_div_multiples_vanish_fancy};
use crate::text::{
    all_digits, digits_value, pow10, is_digit, chars_of, slice_vec, lemma_digits_value_bound, ends_with, decimal,
};

pub use self::amount::{scaled_amount, scale_amount};

verus! {

// ───────────────────────────── amounts ─────────────────────────────

/// The first twenty fraction digits; the ones after them never change the
/// whole KB that a unit of at most a GiB gives.
pub open spec fn frac20(f: Seq<char>) -> Seq<char> {
    if f.len() > 20 {
        f.take(20)
    } else {
        f
    }
}

/// The whole part of `w.f × mul / div` for the whole digits `w` and the
/// fraction digits `f`, at most `u64::MAX`, as `(amount * mult) as u64`
/// leaves it.
pub open spec fn scaled_parts(w: Seq<char>, f: Seq<char>, mul: nat, div: nat) -> nat {
    let f = frac20(f);
    let d = pow10(f.len());
    let v = ((digits_value(w) * d + digits_value(f)) * mul) / (d * div);
    if v > u64::MAX {
        u64::MAX as nat
    } else {
        v
    }
}

/// Whole digits beyond this are worth more than any KB count can hold.
pub open spec fn digit_cap() -> nat {
    0x400_0000_0000_0000_0000_0000
}

/// The number `d` spells, or [`digit_cap`] when it is at least that.
fn digits_capped(d: &[char]) -> (r: u128)
    requires
        all_digits(d@),
    ensures
        r == if digits_value(d@) >= digit_cap() {
            digit_cap()
        } else {
            digits_value(d@)
        },
{
    let cap: u128 = 0x400_0000_0000_0000_0000_0000;
    let mut v: u128 = 0;
    let mut i: usize = 0;
    while i < d.len()
        invariant
            i <= d.len(),
            all_digits(d@),
            cap == digit_cap(),
            v == if digits_value(d@.take(i as int)) >= digit_cap() {
                digit_cap()
            } else {
                digits_value(d@.take(i as int))
            },
        decreases d.len() - i,
    {
        let c = d[i];
        proof {
            assert(d@.take(i + 1).drop_last() == d@.take(i as int));
            assert(d@.take(i + 1).last() == c);
            assert(is_digit(d@[i as int]));
        }
        let cv = (c as u32 - 48) as u128;
        if v == cap {
            proof {
                assert(digits_value(d@.take(i + 1)) >= digits_value(d@.take(i as int)));
            }
        } else {
            let n = v * 10 + cv;
            if n >= cap {
                v = cap;
            } else {
                v = n;
            }
        }
        i += 1;
    }
    proof {
        assert(d@.take(d.len() as int) == d@);
    }
    v
}

proof fn lemma_scale_up(i: int, f: int, d: int, m: int)
    requires
        d > 0,
        0 <= f < d,
        i >= 0,
        m >= 0,
    ensures
        ((i * d + f) * m) / d == i * m + (f * m) / d,
{
    let x = f * m;
    let q = x / d;
    let r = x % d;
    lemma_fundamental_div_mod(x, d);
    assert(0 <= r < d);
    assert((i * d + f) * m == d * (i * m + q) + r) by (nonlinear_arith)
        requires
            x == f * m,
            x == d * q + r,
    ;
    lemma_div_multiples_vanish_fancy(i * m + q, r, d);
}

proof fn lemma_scale_down(i: int, f: int, d: int)
    requires
        d > 0,
        0 <= f < d,
        i >= 0,
    ensures
        ((i * d + f) * 1) / (d * 1024) == i / 1024,
{
    let q = i / 1024;
    let r = i % 1024;
    lemma_fundamental_div_mod(i, 1024);
    assert(0 <= r < 1024);
    assert(i * d + f == (d * 1024) * q + (d * r + f)) by (nonlinear_arith)
        requires
            i == 1024 * q + r,
    ;
    assert(0 <= d * r + f < d * 1024) by (nonlinear_arith)
        requires
            0 <= r < 1024,
            0 <= f < d,
            d > 0,
    ;
    lemma_div_multiples_vanish_fancy(q, d * r + f, d * 1024);
}

/// The whole part of `w.f × mul / div`, as [`scaled_parts`] states it.
/// The scale is KB per unit: a whole number of KB, or a KB per 1024 units.
#[verifier::rlimit(40)]
pub fn scale_parts(w: &[char], f: &[char], mul: u64, div: u64) -> (r: u64)
    requires
        all_digits(w@),
        all_digits(f@),
        (div == 1 && (mul == 1 || mul == 1024 || mul == 1048576)) || (div == 1024 && mul == 1),
    ensures
        r == scaled_parts(w@, f@, mul as nat, div as nat),
{
    let ft = if f.len() > 20 { slice_vec(&f, 0, 20) } else { slice_vec(&f, 0, f.len()) };
    proof {
        assert(ft@ == frac20(f@));
        assert(all_digits(ft@)) by {
            assert forall|k: int| 0 <= k < ft@.len() implies is_digit(#[trigger] ft@[k]) by {
                assert(ft@[k] == f@[k]);
            }
        }
        lemma_digits_value_bound(ft@);
    }
    let iw = digits_capped(&w);
    let fv = digits_capped(&ft);
    proof {
        assert(pow10(20) == 100_000_000_000_000_000_000) by {
            reveal_with_fuel(pow10, 21);
        }
    }
    let mut d: u128 = 1;
    let mut k: usize = 0;
    while k < ft.len()
        invariant
            k <= ft.len() <= 20,
            d == pow10(k as nat),
            pow10(20) == 100_000_000_000_000_000_000,
        decreases ft.len() - k,
    {
        proof {
            assert(pow10((k + 1) as nat) == 10 * pow10(k as nat));
            lemma_pow10_le((k + 1) as nat, 20);
        }
        d = d * 10;
        k += 1;
    }
    proof {
        assert(ft@.len() == ft.len());
        lemma_pow10_le(ft.len() as nat, 20);
        assert(fv == digits_value(ft@));
    }
    scale_whole_frac(iw, fv, d, mul, div, Ghost(digits_value(w@)))
}

/// `⌊(iv·d + fv)·mul / (d·div)⌋`, at most `u64::MAX`, from the whole part
/// `iv` as [`digits_capped`] leaves it.
fn scale_whole_frac(iw: u128, fv: u128, d: u128, mul: u64, div: u64, Ghost(iv): Ghost<nat>) -> (r: u64)
    requires
        iw == if iv >= digit_cap() { digit_cap() } else { iv },
        1 <= d <= 100_000_000_000_000_000_000,
        fv < d,
        (div == 1 && (mul == 1 || mul == 1024 || mul == 1048576)) || (div == 1024 && mul == 1),
    ensures
        ({
            let v: nat = ((iv * (d as nat) + (fv as nat)) * (mul as nat)) / ((d as nat) * (div as nat));
            r == if v > u64::MAX { u64::MAX as nat } else { v }
        }),
{
    let ghost spec_v: nat = ((iv * (d as nat) + (fv as nat)) * (mul as nat)) / ((d as nat) * (div as nat));
    let v: u128 = if div == 1 {
        proof {
            assert(d * (div as nat) == d);
            lemma_scale_up(iv as int, fv as int, d as int, mul as int);
            assert(fv * mul <= 100_000_000_000_000_000_000 * 1048576) by (nonlinear_arith)
                requires
                    fv < 100_000_000_000_000_000_000,
                    mul <= 1048576,
            ;
            assert(iw * mul <= 0x400_0000_0000_0000_0000_0000 * 1048576) by (nonlinear_arith)
                requires
                    iw <= 0x400_0000_0000_0000_0000_0000,
                    mul <= 1048576,
            ;
            assert(spec_v == iv * mul + (fv * mul) / (d as int));
            if iw == digit_cap() {
                assert(iv * mul >= iw) by (nonlinear_arith)
                    requires
                        iv >= iw,
                        mul >= 1,
                ;
            }
        }
        iw * (mul as u128) + (fv * (mul as u128)) / d
    } else {
        proof {
            assert(mul == 1);
            lemma_scale_down(iv as int, fv as int, d as int);
            assert(spec_v == iv / 1024);
            if iw == digit_cap() {
                assert(iv / 1024 >= iw / 1024) by (nonlinear_arith)
                    requires
                        iv >= iw,
                ;
            }
        }
        iw / 1024
    };
    proof {
        if iw == digit_cap() {
            assert(v > u64::MAX);
            assert(spec_v > u64::MAX);
        } else {
            assert(v == spec_v);
        }
    }
    if v > u64::MAX as u128 {
        u64::MAX
    } else {
        v as u64
    }
}

proof fn lemma_pow10_le(a: nat, b: nat)
    requires
        a <= b,
    ensures
        pow10(a) <= pow10(b),
        pow10(a) >= 1,
    decreases b,
{
    if a < b {
        lemma_pow10_le(a, (b - 1) as nat);
    } else if a > 0 {
        lemma_pow10_le((a - 1) as nat, (a - 1) as nat);
    }
}

/// Whether every character of `s` is a decimal digit.
pub fn all_digit_chars(s: &[char]) -> (r: bool)
    ensures
        r == all_digits(s@),
{
    let mut i: usize = 0;
    while i < s.len()
        invariant
            i <= s.len(),
            forall|k: int| 0 <= k < i ==> is_digit(#[trigger] s@[k]),
        decreases s.len() - i,
    {
        let u = s[i] as u32;
        if !(48 <= u && u <= 57) {
            return false;
        }
        i += 1;
    }
    true
}

// ───────────────────────────── dates ─────────────────────────────

/// The `%Y-%m-%d` UTC calendar day of a Unix time, as chrono formats it;
/// `None` outside the range chrono represents.
pub uninterp spec fn utc_day(epoch: i64) -> Option<Seq<char>>;

/// The proleptic Gregorian `(year, month, day)` of the UTC day that holds
/// the Unix time `epoch`: whole days since 1970-01-01 (rounded down),
/// turned into a calendar date by the usual 400-year-era arithmetic.
pub open spec fn civil_date(epoch: int) -> (int, int, int) {
    let z = epoch / 86400 + 719468;
    let era = z / 146097;
    let doe = z - era * 146097;
    let yoe = (doe - doe / 1460 + doe / 36524 - doe / 146096) / 365;
    let doy = doe - (365 * yoe + yoe / 4 - yoe / 100);
    let mp = (5 * doy + 2) / 153;
    let d = doy - (153 * mp + 2) / 5 + 1;
    let m = if mp < 10 { mp + 3 } else { mp - 9 };
    let y = yoe + era * 400 + if m <= 2 { 1int } else { 0int };
    (y, m, d)
}

/// `n` in decimal, zero-padded to at least `w` digits.
pub open spec fn zero_padded(n: nat, w: nat) -> Seq<char> {
    if decimal(n).len() >= w {
        decimal(n)
    } else {
        Seq::new((w - decimal(n).len()) as nat, |i: int| '0') + decimal(n)
    }
}

/// The `YYYY-MM-DD` text of the UTC day holding `epoch`, for a year of at
/// most four digits.
pub open spec fn day_text(epoch: int) -> Seq<char> {
    let (y, m, d) = civil_date(epoch);
    zero_padded(y as nat, 4) + "-"@ + zero_padded(m as nat, 2) + "-"@ + zero_padded(d as nat, 2)
}

/// `chrono::DateTime::from_timestamp(epoch, 0)`, formatted with
/// `%Y-%m-%d`. The contract names the result [`utc_day`]; for a year from
/// 0 to 9999, which chrono represents and prints as four zero-padded digits
/// without a sign, it also states the text ([`day_text`]). Years outside
/// that range (printed with a sign) are left to the name.
#[verifier::external_body]
pub(crate) fn utc_day_of(epoch: i64) -> (r: Option<String>)
    ensures
        match r {
            Some(s) => utc_day(epoch) == Some(s@) && (0 <= civil_date(epoch as int).0 <= 9999 ==> s@ == day_text(
                epoch as int,
            )),
            None => utc_day(epoch) is None && !(0 <= civil_date(epoch as int).0 <= 9999),
        },
{
    match chrono::DateTime::from_timestamp(epoch, 0) {
        Some(dt) => Some(dt.format("%Y-%m-%d").to_string()),
        None => None,
    }
}

/// The Unix time that chrono's `NaiveDateTime::parse_from_str` reads from
/// `text` in the layout `fmt`, taken as UTC; `None` when it does not parse.
pub uninterp spec fn naive_utc_seconds(text: Seq<char>, fmt: Seq<char>) -> Option<i64>;

/// `chrono::NaiveDateTime::parse_from_str(text, fmt)` followed by
/// `.and_utc().timestamp()`. The contract names the result
/// [`naive_utc_seconds`] and says nothing more of it.
#[verifier::external_body]
pub(crate) fn parse_naive_utc(text: &str, fmt: &str) -> (r: Option<i64>)
    ensures
        r == naive_utc_seconds(text@, fmt@),
{
    match chrono::NaiveDateTime::parse_from_str(text, fmt) {
        Ok(dt) => Some(dt.and_utc().timestamp()),
        Err(_) => None,
    }
}

/// The Unix time that chrono's `DateTime::parse_from_str` reads from `text`
/// in the layout `fmt`, which carries its own UTC offset; `None` when it
/// does not parse.
pub uninterp spec fn offset_seconds(text: Seq<char>, fmt: Seq<char>) -> Option<i64>;

/// `chrono::DateTime::parse_from_str(text, fmt)` followed by `.timestamp()`.
/// The contract names the result [`offset_seconds`] and says nothing more
/// of it.
#[verifier::external_body]
pub(crate) fn parse_offset_time(text: &str, fmt: &str) -> (r: Option<i64>)
    ensures
        r == offset_seconds(text@, fmt@),
{
    match chrono::DateTime::parse_from_str(text, fmt) {
        Ok(dt) => Some(dt.timestamp()),
        Err(_) => None,
    }
}

/// A stored install time as a `YYYY-MM-DD` day, or `"unknown"`.
pub open spec fn date_or_unknown(epoch: i64) -> Seq<char> {
    match utc_day(epoch) {
        Some(d) => d,
        None => "unknown"@,
    }
}

/// Render a stored install epoch back to a `YYYY-MM-DD` string for display.
pub fn epoch_to_date(epoch: i64) -> (s: String)
    ensures
        s@ == date_or_unknown(epoch),
        0 <= civil_date(epoch as int).0 <= 9999 ==> s@ == day_text(epoch as int),
{
    match utc_day_of(epoch) {
        Some(d) => d,
        None => String::from_str("unknown"),
    }
}

// ───────────────────────────── logs ─────────────────────────────

/// What the gzip stream `bytes` inflates to, read as UTF-8 text; `None`
/// when it is no gzip stream or the text is no UTF-8.
pub uninterp spec fn gunzip_text(bytes: Seq<u8>) -> Option<Seq<char>>;

/// `flate2::read::GzDecoder::new(bytes).read_to_string(..)`. The contract
/// names the result [`gunzip_text`] and says nothing more of it.
#[verifier::external_body]
fn gunzip(bytes: &[u8]) -> (r: Option<String>)
    ensures
        match r {
            Some(s) => gunzip_text(bytes@) == Some(s@),
            None => gunzip_text(bytes@) is None,
        },
{
    let mut s = String::new();
    match flate2::read::GzDecoder::new(bytes).read_to_string(&mut s) {
        Ok(_) => Some(s),
        Err(_) => None,
    }
}

/// `bytes` read as UTF-8, each invalid sequence replaced by U+FFFD.
pub uninterp spec fn lossy_text(bytes: Seq<u8>) -> Seq<char>;

/// Every byte is ASCII.
pub open spec fn all_ascii(bytes: Seq<u8>) -> bool {
    forall|i: int| 0 <= i < bytes.len() ==> bytes[i] < 128
}

/// ASCII bytes, each as the character it encodes.
pub open spec fn ascii_chars(bytes: Seq<u8>) -> Seq<char> {
    bytes.map_values(|b: u8| b as char)
}

/// `String::from_utf8_lossy(bytes).into_owned()`. The contract names the
/// result [`lossy_text`], and states the one fact the documentation gives
/// plainly that callers use: valid UTF-8, here ASCII, comes back unchanged.
#[verifier::external_body]
fn utf8_lossy(bytes: &[u8]) -> (s: String)
    ensures
        s@ == lossy_text(bytes@),
        all_ascii(bytes@) ==> s@ == ascii_chars(bytes@),
{
    String::from_utf8_lossy(bytes).into_owned()
}

/// A file name whose extension is `gz`.
pub open spec fn gz_name(name: Seq<char>) -> bool {
    name.len() > 3 && ends_with(name, ".gz"@)
}

/// A log file's text from its name and bytes: inflated when the name ends
/// in `.gz` (`None` when that fails), read as lossy UTF-8 otherwise.
pub fn decode_log(name: &str, bytes: &[u8]) -> (r: Option<String>)
    ensures
        gz_name(name@) ==> match r {
            Some(s) => gunzip_text(bytes@) == Some(s@),
            None => gunzip_text(bytes@) is None,
        },
        !gz_name(name@) ==> (r matches Some(s) && s@ == lossy_text(bytes@)),
        !gz_name(name@) && all_ascii(bytes@) ==> (r matches Some(s) && s@ == ascii_chars(bytes@)),
{
    let n = chars_of(name);
    let suffix = chars_of(".gz");
    let gz = n.len() > 3 && crate::text::match_at(&n, &suffix, n.len() - 3);
    proof {
        reveal_strlit(".gz");
        assert(suffix@.len() == 3);
    }
    if gz {
        gunzip(bytes)
    } else {
        Some(utf8_lossy(bytes))
    }
}

} // verus!
