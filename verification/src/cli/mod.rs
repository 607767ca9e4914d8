//! Dates and names for the command line: RFC 3339 timestamps from Unix
//! seconds, and the default document namespace.

use crate::hash::{blake3_digest, blake3_hex_of_str};
use crate::order::{char_key, lemma_text_block, lex_lt};
use crate::text::{
    chars_of, digit_char, fixed_digits, lemma_digit_char_value, lemma_fixed_digits_len, lemma_zero_padded_fixed,
    lower_hex, pow10, push_char, push_str, push_zero_padded, string_of, zero_padded,
};
use vstd::prelude::*;

verus! {

/// Whether `y` is a leap year of the proleptic Gregorian calendar.
pub open spec fn is_leap(y: int) -> bool {
    y % 4 == 0 && (y % 100 != 0 || y % 400 == 0)
}

/// Number of days of month `m` (1 to 12) in year `y`.
pub open spec fn days_in_month(y: int, m: int) -> int {
    if m == 2 {
        if is_leap(y) { 29 } else { 28 }
    } else if m == 4 || m == 6 || m == 9 || m == 11 {
        30
    } else {
        31
    }
}

/// Days in year `y` before the first of month `m`.
pub open spec fn days_before_month(y: int, m: int) -> int {
    let base: int = if m == 1 { 0 } else if m == 2 { 31 } else if m == 3 { 59 } else if m == 4 { 90 }
        else if m == 5 { 120 } else if m == 6 { 151 } else if m == 7 { 181 } else if m == 8 { 212 }
        else if m == 9 { 243 } else if m == 10 { 273 } else if m == 11 { 304 } else { 334 };
    base + if m > 2 && is_leap(y) { 1int } else { 0int }
}

/// Days from 0000-01-01 to the first of January of year `y`: 365 per year
/// and one more per leap year before it (counted backwards for negative
/// years).
pub open spec fn days_before_year(y: int) -> int {
    365 * y + (y + 3) / 4 - (y + 99) / 100 + (y + 399) / 400
}

/// Days from 1970-01-01 to the date `y-m-d`.
pub open spec fn days_from_civil(y: int, m: int, d: int) -> int {
    days_before_year(y) + days_before_month(y, m) + d - 1 - days_before_year(1970)
}

/// Whether `y-m-d` names a day of the calendar.
pub open spec fn valid_date(y: int, m: int, d: int) -> bool {
    1 <= m <= 12 && 1 <= d <= days_in_month(y, m)
}

/// A year has 366 days when it is a leap year and 365 otherwise.
pub proof fn lemma_year_length(y: int)
    ensures
        days_before_year(y + 1) == days_before_year(y) + 365 + if is_leap(y) { 1int } else { 0int },
{
}


/// Later years start later.
pub proof fn lemma_days_before_year_monotone(a: int, b: int)
    requires
        a <= b,
    ensures
        days_before_year(a) + 365 * (b - a) <= days_before_year(b),
    decreases b - a,
{
    if a < b {
        lemma_days_before_year_monotone(a, b - 1);
        lemma_year_length(b - 1);
    }
}

/// Within a year, a valid date's day count lies in `[0, length)`, and
/// months follow one another without gaps.
proof fn lemma_day_of_year(y: int, m: int, d: int)
    requires
        valid_date(y, m, d),
    ensures
        0 <= days_before_month(y, m) + d - 1,
        days_before_month(y, m) + d - 1 < 365 + if is_leap(y) { 1int } else { 0int },
        m < 12 ==> days_before_month(y, m) + d - 1 < days_before_month(y, m + 1),
{
}

/// Different dates fall on different days: a day count names at most one
/// valid date.
pub proof fn lemma_date_unique(y1: int, m1: int, d1: int, y2: int, m2: int, d2: int)
    requires
        valid_date(y1, m1, d1),
        valid_date(y2, m2, d2),
        days_from_civil(y1, m1, d1) == days_from_civil(y2, m2, d2),
    ensures
        y1 == y2,
        m1 == m2,
        d1 == d2,
{
    lemma_day_of_year(y1, m1, d1);
    lemma_day_of_year(y2, m2, d2);
    if y1 < y2 {
        lemma_year_length(y1);
        lemma_days_before_year_monotone(y1 + 1, y2);
    } else if y2 < y1 {
        lemma_year_length(y2);
        lemma_days_before_year_monotone(y2 + 1, y1);
    } else {
        if m1 < m2 {
            lemma_month_start_monotone(y1, m1 + 1, m2);
        } else if m2 < m1 {
            lemma_month_start_monotone(y1, m2 + 1, m1);
        }
    }
}

/// Later months start later in the year.
proof fn lemma_month_start_monotone(y: int, a: int, b: int)
    requires
        1 <= a <= b <= 12,
    ensures
        days_before_month(y, a) <= days_before_month(y, b),
{
}

/// Every valid date is the one that its own day count converts back to.
pub proof fn lemma_civil_inverse(y: int, m: int, d: int)
    requires
        valid_date(y, m, d),
    ensures
        civil_parts(days_from_civil(y, m, d)) == (y, m, d),
{
    let n = days_from_civil(y, m, d);
    lemma_civil_parts(n);
    let c = civil_parts(n);
    lemma_date_unique(c.0, c.1, c.2, y, m, d);
}

/// The days of a 400-year era: years `400 * e + k` start at a fixed offset
/// from the era's first year.
pub proof fn lemma_era_year(e: int, k: int)
    requires
        0 <= k < 400,
    ensures
        days_before_year(400 * e + k) == 146097 * e + 365 * k + (k + 3) / 4 - (k + 99) / 100 + (k + 399) / 400,
        is_leap(400 * e + k) == is_leap(k),
{
    assert((400 * e + k + 3) / 4 == 100 * e + (k + 3) / 4);
    assert((400 * e + k + 99) / 100 == 4 * e + (k + 99) / 100);
    assert((400 * e + k + 399) / 400 == e + (k + 399) / 400);
    assert((400 * e + k) % 4 == k % 4);
    assert((400 * e + k) % 100 == k % 100);
    assert((400 * e + k) % 400 == k % 400);
}


/// Within an era counted from March 1st of its first year, the year that
/// Hinnant's formula picks holds the day `doe`, and its start is where the
/// leap-year rule puts it.
proof fn lemma_year_of_era(doe: u32)
    by (bit_vector)
    requires
        doe <= 146096,
    ensures
        ({
            let yoe = (doe - doe / 1460 + doe / 36524 - doe / 146096) / 365;
            let start = 365 * yoe + yoe / 4 - yoe / 100;
            let next_leap = (yoe + 1) % 4 == 0 && ((yoe + 1) % 100 != 0 || (yoe + 1) % 400 == 0);
            &&& yoe <= 399
            &&& start <= doe
            &&& next_leap ==> doe - start <= 365
            &&& !next_leap ==> doe - start <= 364
        }),
{
}

/// The start of year `k` of an era, counted from March 1st, against the
/// January-based count of days before year `k`.
proof fn lemma_march_start(k: u32)
    by (bit_vector)
    requires
        k <= 399,
    ensures
        ({
            let leap = k % 4 == 0 && (k % 100 != 0 || k % 400 == 0);
            365 * k + k / 4 - k / 100 + 60 == 365 * k + (k + 3) / 4 - (k + 99) / 100 + (k + 399) / 400 + 59
                + if leap { 1u32 } else { 0u32 }
        }),
{
}

/// Month and day within a year counted from March 1st.
proof fn lemma_month_of_year(doy: u32)
    by (bit_vector)
    requires
        doy <= 365,
    ensures
        ({
            let mp = (5 * doy + 2) / 153;
            let off = (153 * mp + 2) / 5;
            &&& mp <= 11
            &&& off <= doy
            &&& doy - off <= 30
            &&& (mp == 1 || mp == 3 || mp == 6 || mp == 8) ==> doy - off <= 29
            &&& mp == 11 ==> doy - off <= 28
        }),
{
}

/// The date that Hinnant's civil-from-days algorithm computes, in spec.
pub open spec fn civil_parts(days: int) -> (int, int, int) {
    let z = days + 719468;
    let era = z / 146097;
    let doe = z - era * 146097;
    let yoe = (doe - doe / 1460 + doe / 36524 - doe / 146096) / 365;
    let y = yoe + era * 400;
    let doy = doe - (365 * yoe + yoe / 4 - yoe / 100);
    let mp = (5 * doy + 2) / 153;
    let d = doy - (153 * mp + 2) / 5 + 1;
    let m = if mp < 10 { mp + 3 } else { mp - 9 };
    (if m <= 2 { y + 1 } else { y }, m, d)
}

/// Hinnant's algorithm is right: it names a valid date, and that date is
/// `days` days after 1970-01-01.
pub proof fn lemma_civil_parts(days: int)
    ensures
        valid_date(civil_parts(days).0, civil_parts(days).1, civil_parts(days).2),
        days_from_civil(civil_parts(days).0, civil_parts(days).1, civil_parts(days).2) == days,
{
    let z = days + 719468;
    let era = z / 146097;
    let doe = z - era * 146097;
    assert(0 <= doe < 146097);
    let x = doe as u32;
    lemma_year_of_era(x);
    let yoe = (doe - doe / 1460 + doe / 36524 - doe / 146096) / 365;
    let xy = (x - x / 1460 + x / 36524 - x / 146096) / 365;
    assert(yoe == xy);
    let y = yoe + era * 400;
    let doy = doe - (365 * yoe + yoe / 4 - yoe / 100);
    assert(0 <= doy <= 365);
    let w = doy as u32;
    lemma_month_of_year(w);
    let k = yoe as u32;
    lemma_march_start(k);
    let mp = (5 * doy + 2) / 153;
    let off = (153 * mp + 2) / 5;
    let d = doy - off + 1;
    let m = if mp < 10 { mp + 3 } else { mp - 9 };
    let year = if m <= 2 { y + 1 } else { y };
    assert(civil_parts(days) == (year, m, d));
    lemma_era_year(era, yoe);
    lemma_year_length(y);
    assert(is_leap(y + 1) == is_leap(yoe + 1)) by {
        if yoe + 1 < 400 {
            lemma_era_year(era, yoe + 1);
        } else {
            assert(is_leap(400 * (era + 1)) == is_leap(0)) by {
                lemma_era_year(era + 1, 0);
            }
            assert(400 * (era + 1) == y + 1);
        }
    }
    assert(0 <= mp <= 11);
    assert(days_before_year(1970) == 719528);
    if mp == 0 { assert(off == 0); }
    else if mp == 1 { assert(off == 31); }
    else if mp == 2 { assert(off == 61); }
    else if mp == 3 { assert(off == 92); }
    else if mp == 4 { assert(off == 122); }
    else if mp == 5 { assert(off == 153); }
    else if mp == 6 { assert(off == 184); }
    else if mp == 7 { assert(off == 214); }
    else if mp == 8 { assert(off == 245); }
    else if mp == 9 { assert(off == 275); }
    else if mp == 10 { assert(off == 306); }
    else { assert(off == 337); }
}


/// Floor division by a positive divisor.
fn floor_div(x: i64, d: i64) -> (q: i64)
    requires
        d > 0,
    ensures
        q == x / d,
{
    if x >= 0 {
        ((x as u64) / (d as u64)) as i64
    } else {
        let t: u64 = (-(x + 1)) as u64;
        let q0: u64 = t / (d as u64);
        proof {
            let ti = t as int;
            let di = d as int;
            let qi = q0 as int;
            assert(ti == di * qi + ti % di) by (nonlinear_arith)
                requires
                    di > 0,
                    qi == ti / di,
            ;
            assert(0 <= ti % di < di);
            let r = di - 1 - ti % di;
            assert(x == di * (-qi - 1) + r) by (nonlinear_arith)
                requires
                    ti == di * qi + ti % di,
                    x == -(ti + 1),
                    r == di - 1 - ti % di,
            ;
            assert(0 <= r < di);
            vstd::arithmetic::div_mod::lemma_fundamental_div_mod_converse(x as int, di, -qi - 1, r);
            assert(qi <= ti) by (nonlinear_arith)
                requires
                    qi == ti / di,
                    di > 0,
                    ti >= 0,
            ;
        }
        -(q0 as i64) - 1
    }
}

/// Non-negative remainder of a division by a positive divisor.
fn floor_mod(x: i64, d: i64) -> (r: u64)
    requires
        d > 0,
    ensures
        r == x % d,
        r < d,
{
    if x >= 0 {
        (x as u64) % (d as u64)
    } else {
        let t: u64 = (-(x + 1)) as u64;
        let r0: u64 = t % (d as u64);
        proof {
            let ti = t as int;
            let di = d as int;
            let qi = ti / di;
            assert(ti == di * qi + ti % di) by (nonlinear_arith)
                requires
                    di > 0,
                    qi == ti / di,
            ;
            let r = di - 1 - ti % di;
            assert(x == di * (-qi - 1) + r) by (nonlinear_arith)
                requires
                    ti == di * qi + ti % di,
                    x == -(ti + 1),
                    r == di - 1 - ti % di,
            ;
            vstd::arithmetic::div_mod::lemma_fundamental_div_mod_converse(x as int, di, -qi - 1, r);
        }
        (d as u64) - 1 - r0
    }
}

/// The calendar date `days_since_epoch` days after 1970-01-01, as
/// (year, month, day). Howard Hinnant's civil-from-days algorithm.
pub fn civil_date(days_since_epoch: i64) -> (res: (i64, u32, u32))
    requires
        days_since_epoch <= i64::MAX - 719468,
    ensures
        valid_date(res.0 as int, res.1 as int, res.2 as int),
        days_from_civil(res.0 as int, res.1 as int, res.2 as int) == days_since_epoch,
        res.0 as int == civil_parts(days_since_epoch as int).0,
        res.0 > i64::MIN,
{
    let z = days_since_epoch + 719468;
    let era = floor_div(z, 146097);
    proof {
        vstd::arithmetic::div_mod::lemma_fundamental_div_mod(z as int, 146097);
        assert(0 <= z % 146097 < 146097);
    }
    let doe = (z - era * 146097) as u64;
    proof {
        lemma_year_of_era(doe as u32);
    }
    let yoe = (doe - doe / 1460 + doe / 36524 - doe / 146096) / 365;
    assert(yoe <= 399);
    assert(era >= i64::MIN / 146097 - 1 && era <= i64::MAX / 146097);
    let y = yoe as i64 + era * 400;
    let doy = doe - (365 * yoe + yoe / 4 - yoe / 100);
    proof {
        lemma_month_of_year(doy as u32);
    }
    let mp = (5 * doy + 2) / 153;
    let d = (doy - (153 * mp + 2) / 5 + 1) as u32;
    let m = if mp < 10 { mp + 3 } else { mp - 9 } as u32;
    let year = if m <= 2 { y + 1 } else { y };
    proof {
        lemma_civil_parts(days_since_epoch as int);
        assert(civil_parts(days_since_epoch as int) == (year as int, m as int, d as int));
    }
    (year, m, d)
}

/// A year as `{:04}` writes it: a minus sign for negative years, the digits
/// zero-padded to four characters including the sign.
pub open spec fn year_text(y: int) -> Seq<char> {
    if y < 0 {
        seq!['-'] + zero_padded((-y) as nat, 3)
    } else {
        zero_padded(y as nat, 4)
    }
}

/// `YYYY-MM-DDTHH:MM:SSZ`.
pub open spec fn iso_text(y: int, mo: nat, d: nat, h: nat, mi: nat, s: nat) -> Seq<char> {
    year_text(y) + day_clock_text(mo, d, h, mi, s)
}

/// `THH:MM:SSZ`.
pub open spec fn clock_text(h: nat, mi: nat, s: nat) -> Seq<char> {
    seq!['T'] + zero_padded(h, 2) + (seq![':'] + zero_padded(mi, 2) + (seq![':'] + zero_padded(s, 2) + seq!['Z']))
}

/// `-MM-DDTHH:MM:SSZ`.
pub open spec fn day_clock_text(mo: nat, d: nat, h: nat, mi: nat, s: nat) -> Seq<char> {
    seq!['-'] + zero_padded(mo, 2) + (seq!['-'] + zero_padded(d, 2) + clock_text(h, mi, s))
}

/// The RFC 3339 UTC timestamp of `unix_secs` seconds after the epoch.
pub open spec fn iso_timestamp(unix_secs: int, text: Seq<char>) -> bool {
    let days = unix_secs / 86400;
    let r = unix_secs % 86400;
    exists|y: int, mo: int, d: int|
        valid_date(y, mo, d) && days_from_civil(y, mo, d) == days
            && text == iso_text(y, mo as nat, d as nat, (r / 3600) as nat, ((r % 3600) / 60) as nat, (r % 60) as nat)
}

/// The RFC 3339 UTC timestamp (`YYYY-MM-DDTHH:MM:SSZ`) of a Unix time.
pub fn format_iso_utc(unix_secs: i64) -> (res: String)
    ensures
        iso_timestamp(unix_secs as int, res@),
{
    let days = floor_div(unix_secs, 86400);
    let rem = floor_mod(unix_secs, 86400);
    assert(days <= i64::MAX - 719468);
    let hour = rem / 3600;
    let minute = (rem % 3600) / 60;
    let second = rem % 60;
    let (year, month, day) = civil_date(days);
    let mut s = String::new();
    if year < 0 {
        push_char(&mut s, '-');
        push_zero_padded(&mut s, (-year) as u64, 3);
    } else {
        push_zero_padded(&mut s, year as u64, 4);
    }
    push_char(&mut s, '-');
    push_zero_padded(&mut s, month as u64, 2);
    push_char(&mut s, '-');
    push_zero_padded(&mut s, day as u64, 2);
    push_char(&mut s, 'T');
    push_zero_padded(&mut s, hour, 2);
    push_char(&mut s, ':');
    push_zero_padded(&mut s, minute, 2);
    push_char(&mut s, ':');
    push_zero_padded(&mut s, second, 2);
    push_char(&mut s, 'Z');
    proof {
        lemma_iso_layout(
            year_text(year as int),
            zero_padded(month as nat, 2),
            zero_padded(day as nat, 2),
            zero_padded(hour as nat, 2),
            zero_padded(minute as nat, 2),
            zero_padded(second as nat, 2),
        );
    }
    assert(s@ == iso_text(year as int, month as nat, day as nat, hour as nat, minute as nat, second as nat));
    s
}

/// The fields of a timestamp written one after the other are the year
/// followed by the rest.
proof fn lemma_iso_layout(y: Seq<char>, mo: Seq<char>, d: Seq<char>, h: Seq<char>, mi: Seq<char>, s: Seq<char>)
    ensures
        y + seq!['-'] + mo + seq!['-'] + d + seq!['T'] + h + seq![':'] + mi + seq![':'] + s + seq!['Z']
            == y + (seq!['-'] + mo + (seq!['-'] + d + (seq!['T'] + h + (seq![':'] + mi + (seq![':'] + s + seq!['Z']))))),
{
    let c = seq![':'] + s + seq!['Z'];
    let b = seq![':'] + mi + c;
    let a = seq!['T'] + h + b;
    let t = seq!['-'] + d + a;
    let u = seq!['-'] + mo + t;
    let f1 = y + seq!['-'] + mo + seq!['-'] + d + seq!['T'] + h + seq![':'] + mi;
    assert(f1 + seq![':'] + s + seq!['Z'] =~= f1 + c);
    let f2 = y + seq!['-'] + mo + seq!['-'] + d + seq!['T'] + h;
    assert(f2 + seq![':'] + mi + c =~= f2 + b);
    let f3 = y + seq!['-'] + mo + seq!['-'] + d;
    assert(f3 + seq!['T'] + h + b =~= f3 + a);
    let f4 = y + seq!['-'] + mo;
    assert(f4 + seq!['-'] + d + a =~= f4 + t);
    assert(y + seq!['-'] + mo + t =~= y + u);
}


/// Fixed-width digit strings sort as the numbers they spell.
proof fn lemma_fixed_digits_order(n1: nat, n2: nat, w: nat)
    requires
        n1 < n2 < pow10(w),
    ensures
        lex_lt(char_key(fixed_digits(n1, w)), char_key(fixed_digits(n2, w))),
    decreases w,
{
    let v = (w - 1) as nat;
    let p1 = fixed_digits(n1 / 10, v);
    let p2 = fixed_digits(n2 / 10, v);
    let c1 = seq![digit_char(n1 % 10)];
    let c2 = seq![digit_char(n2 % 10)];
    lemma_fixed_digits_len(n1 / 10, v);
    lemma_fixed_digits_len(n2 / 10, v);
    assert(fixed_digits(n1, w) =~= Seq::<char>::empty() + p1 + c1);
    assert(fixed_digits(n2, w) =~= Seq::<char>::empty() + p2 + c2);
    if n1 / 10 < n2 / 10 {
        assert(n2 / 10 < pow10(v));
        lemma_fixed_digits_order(n1 / 10, n2 / 10, v);
    } else {
        lemma_digit_char_value(n1 % 10);
        lemma_digit_char_value(n2 % 10);
        assert(char_key(c1) =~= seq![digit_char(n1 % 10) as u32]);
        assert(char_key(c2) =~= seq![digit_char(n2 % 10) as u32]);
        assert(lex_lt(char_key(c1), char_key(c2))) by {
            reveal_with_fuel(lex_lt, 2);
        }
    }
    lemma_text_block(Seq::empty(), p1, p2, c1, c2);
}

/// Whether the date `y1-m1-d1` comes before `y2-m2-d2` in the calendar.
pub open spec fn date_before(y1: int, m1: int, d1: int, y2: int, m2: int, d2: int) -> bool {
    y1 < y2 || (y1 == y2 && (m1 < m2 || (m1 == m2 && d1 < d2)))
}

/// Earlier dates fall on earlier days.
proof fn lemma_date_order(y1: int, m1: int, d1: int, y2: int, m2: int, d2: int)
    requires
        valid_date(y1, m1, d1),
        valid_date(y2, m2, d2),
        date_before(y1, m1, d1, y2, m2, d2),
    ensures
        days_from_civil(y1, m1, d1) < days_from_civil(y2, m2, d2),
{
    lemma_day_of_year(y1, m1, d1);
    lemma_day_of_year(y2, m2, d2);
    if y1 < y2 {
        lemma_year_length(y1);
        lemma_days_before_year_monotone(y1 + 1, y2);
    } else if m1 < m2 {
        lemma_month_start_monotone(y1, m1 + 1, m2);
    }
}

/// The date of a day from 1970-01-01 up to 9999-12-31 has a four-digit year.
proof fn lemma_four_digit_year(y: int, m: int, d: int)
    requires
        valid_date(y, m, d),
        0 <= days_from_civil(y, m, d) < 2932897,
    ensures
        1970 <= y <= 9999,
{
    assert(days_before_year(1970) == 719528);
    assert(days_before_year(10000) == 3652425);
    assert(valid_date(1970, 1, 1));
    assert(valid_date(10000, 1, 1));
    assert(days_from_civil(1970, 1, 1) == 0);
    assert(days_from_civil(10000, 1, 1) == 2932897);
    if y < 1970 {
        lemma_date_order(y, m, d, 1970, 1, 1);
    }
    if y >= 10000 {
        if y > 10000 || m > 1 || d > 1 {
            lemma_date_order(10000, 1, 1, y, m, d);
        }
    }
}

/// A two-digit field sorts as its value.
proof fn lemma_field_order(n1: nat, n2: nat)
    requires
        n1 < 100,
        n2 < 100,
    ensures
        zero_padded(n1, 2).len() == 2,
        n1 < n2 ==> lex_lt(char_key(zero_padded(n1, 2)), char_key(zero_padded(n2, 2))),
{
    reveal_with_fuel(pow10, 3);
    lemma_zero_padded_fixed(n1, 2);
    lemma_zero_padded_fixed(n2, 2);
    lemma_fixed_digits_len(n1, 2);
    if n1 < n2 {
        lemma_fixed_digits_order(n1, n2, 2);
    }
}

proof fn lemma_clock_order(h1: nat, mi1: nat, s1: nat, h2: nat, mi2: nat, s2: nat)
    requires
        h1 < 100 && mi1 < 100 && s1 < 100,
        h2 < 100 && mi2 < 100 && s2 < 100,
        h1 < h2 || (h1 == h2 && (mi1 < mi2 || (mi1 == mi2 && s1 < s2))),
    ensures
        lex_lt(char_key(clock_text(h1, mi1, s1)), char_key(clock_text(h2, mi2, s2))),
{
    lemma_field_order(h1, h2);
    lemma_field_order(mi1, mi2);
    lemma_field_order(s1, s2);
    lemma_field_order(h2, h1);
    lemma_field_order(mi2, mi1);
    lemma_field_order(s2, s1);
    let z = seq!['Z'];
    let t1 = seq![':'] + zero_padded(s1, 2) + z;
    let t2 = seq![':'] + zero_padded(s2, 2) + z;
    let u1 = seq![':'] + zero_padded(mi1, 2) + t1;
    let u2 = seq![':'] + zero_padded(mi2, 2) + t2;
    if h1 == h2 && mi1 == mi2 {
        lemma_text_block(seq![':'], zero_padded(s1, 2), zero_padded(s2, 2), z, z);
    }
    if h1 == h2 {
        lemma_text_block(seq![':'], zero_padded(mi1, 2), zero_padded(mi2, 2), t1, t2);
    }
    lemma_text_block(seq!['T'], zero_padded(h1, 2), zero_padded(h2, 2), u1, u2);
}

/// The fixed width of the text after the year.
proof fn lemma_day_clock_len(mo: nat, d: nat, h: nat, mi: nat, s: nat)
    requires
        mo < 100 && d < 100 && h < 100 && mi < 100 && s < 100,
    ensures
        day_clock_text(mo, d, h, mi, s).len() == 16,
{
    lemma_field_order(mo, mo);
    lemma_field_order(d, d);
    lemma_field_order(h, h);
    lemma_field_order(mi, mi);
    lemma_field_order(s, s);
}

proof fn lemma_day_clock_order(
    mo1: nat, d1: nat, h1: nat, mi1: nat, s1: nat,
    mo2: nat, d2: nat, h2: nat, mi2: nat, s2: nat,
)
    requires
        mo1 < 100 && d1 < 100 && h1 < 100 && mi1 < 100 && s1 < 100,
        mo2 < 100 && d2 < 100 && h2 < 100 && mi2 < 100 && s2 < 100,
        mo1 < mo2 || (mo1 == mo2 && (d1 < d2 || (d1 == d2 && (h1 < h2
            || (h1 == h2 && (mi1 < mi2 || (mi1 == mi2 && s1 < s2))))))),
    ensures
        lex_lt(char_key(day_clock_text(mo1, d1, h1, mi1, s1)), char_key(day_clock_text(mo2, d2, h2, mi2, s2))),
{
    lemma_field_order(mo1, mo2);
    lemma_field_order(d1, d2);
    lemma_field_order(mo2, mo1);
    lemma_field_order(d2, d1);
    let c1 = clock_text(h1, mi1, s1);
    let c2 = clock_text(h2, mi2, s2);
    if mo1 == mo2 && d1 == d2 {
        lemma_clock_order(h1, mi1, s1, h2, mi2, s2);
    }
    let t1 = seq!['-'] + zero_padded(d1, 2) + c1;
    let t2 = seq!['-'] + zero_padded(d2, 2) + c2;
    if mo1 == mo2 {
        lemma_text_block(seq!['-'], zero_padded(d1, 2), zero_padded(d2, 2), c1, c2);
    }
    lemma_text_block(seq!['-'], zero_padded(mo1, 2), zero_padded(mo2, 2), t1, t2);
}

/// The timestamp text of a date and time from 1970 to 9999 sorts as the
/// date and time.
proof fn lemma_iso_text_order(
    y1: int, mo1: nat, d1: nat, h1: nat, mi1: nat, s1: nat,
    y2: int, mo2: nat, d2: nat, h2: nat, mi2: nat, s2: nat,
)
    requires
        1970 <= y1 <= 9999,
        1970 <= y2 <= 9999,
        mo1 < 100 && d1 < 100 && h1 < 100 && mi1 < 100 && s1 < 100,
        mo2 < 100 && d2 < 100 && h2 < 100 && mi2 < 100 && s2 < 100,
        y1 < y2 || (y1 == y2 && (mo1 < mo2 || (mo1 == mo2 && (d1 < d2 || (d1 == d2 && (h1 < h2
            || (h1 == h2 && (mi1 < mi2 || (mi1 == mi2 && s1 < s2))))))))),
    ensures
        iso_text(y1, mo1, d1, h1, mi1, s1).len() == 20,
        iso_text(y2, mo2, d2, h2, mi2, s2).len() == 20,
        lex_lt(char_key(iso_text(y1, mo1, d1, h1, mi1, s1)), char_key(iso_text(y2, mo2, d2, h2, mi2, s2))),
{
    reveal_with_fuel(pow10, 5);
    lemma_zero_padded_fixed(y1 as nat, 4);
    lemma_zero_padded_fixed(y2 as nat, 4);
    lemma_fixed_digits_len(y1 as nat, 4);
    lemma_fixed_digits_len(y2 as nat, 4);
    let e: Seq<char> = Seq::empty();
    let ys1 = zero_padded(y1 as nat, 4);
    let ys2 = zero_padded(y2 as nat, 4);
    let t1 = day_clock_text(mo1, d1, h1, mi1, s1);
    let t2 = day_clock_text(mo2, d2, h2, mi2, s2);
    assert(e + ys1 + t1 =~= ys1 + t1);
    assert(e + ys2 + t2 =~= ys2 + t2);
    lemma_day_clock_len(mo1, d1, h1, mi1, s1);
    lemma_day_clock_len(mo2, d2, h2, mi2, s2);
    if y1 == y2 {
        lemma_day_clock_order(mo1, d1, h1, mi1, s1, mo2, d2, h2, mi2, s2);
    } else {
        lemma_fixed_digits_order(y1 as nat, y2 as nat, 4);
    }
    lemma_text_block(e, ys1, ys2, t1, t2);
}

/// From 1970 to the end of 9999 a timestamp is the twenty characters
/// `YYYY-MM-DDTHH:MM:SSZ`, and timestamps sort as the times they name.
pub proof fn lemma_timestamp_order(a: int, b: int, ta: Seq<char>, tb: Seq<char>)
    requires
        0 <= a < b < 253402300800,
        iso_timestamp(a, ta),
        iso_timestamp(b, tb),
    ensures
        ta.len() == 20,
        tb.len() == 20,
        lex_lt(char_key(ta), char_key(tb)),
{
    let da = a / 86400;
    let ra = a % 86400;
    let db = b / 86400;
    let rb = b % 86400;
    lemma_instant_split(a, b);
    let (y1, m1, d1) = choose|y: int, mo: int, d: int|
        valid_date(y, mo, d) && days_from_civil(y, mo, d) == da
            && ta == iso_text(y, mo as nat, d as nat, (ra / 3600) as nat, ((ra % 3600) / 60) as nat, (ra % 60) as nat);
    let (y2, m2, d2) = choose|y: int, mo: int, d: int|
        valid_date(y, mo, d) && days_from_civil(y, mo, d) == db
            && tb == iso_text(y, mo as nat, d as nat, (rb / 3600) as nat, ((rb % 3600) / 60) as nat, (rb % 60) as nat);
    lemma_four_digit_year(y1, m1, d1);
    lemma_four_digit_year(y2, m2, d2);
    if da == db {
        lemma_date_unique(y1, m1, d1, y2, m2, d2);
        lemma_clock_fields(ra, rb);
    } else {
        lemma_clock_fields(ra, ra + 1);
        lemma_clock_fields(rb, rb + 1);
        if date_before(y2, m2, d2, y1, m1, d1) {
            lemma_date_order(y2, m2, d2, y1, m1, d1);
        }
        assert(date_before(y1, m1, d1, y2, m2, d2));
    }
    lemma_iso_text_order(
        y1, m1 as nat, d1 as nat, (ra / 3600) as nat, ((ra % 3600) / 60) as nat, (ra % 60) as nat,
        y2, m2 as nat, d2 as nat, (rb / 3600) as nat, ((rb % 3600) / 60) as nat, (rb % 60) as nat,
    );
}

/// Of two instants from 1970 up to the end of 9999, the earlier falls on
/// the same or an earlier day, and on the same day at an earlier second.
proof fn lemma_instant_split(a: int, b: int)
    requires
        0 <= a < b < 253402300800,
    ensures
        0 <= a / 86400 <= b / 86400 < 2932897,
        0 <= a % 86400 < 86400,
        0 <= b % 86400 < 86400,
        a / 86400 == b / 86400 ==> a % 86400 < b % 86400,
{
    assert(a == 86400 * (a / 86400) + a % 86400);
    assert(b == 86400 * (b / 86400) + b % 86400);
}

/// The hour, minute and second of a second of the day are below 100, and
/// an earlier second has an earlier reading.
proof fn lemma_clock_fields(r1: int, r2: int)
    requires
        0 <= r1 < r2 <= 86400,
    ensures
        r1 / 3600 < 24,
        (r1 % 3600) / 60 < 60,
        r1 % 60 < 60,
        r2 < 86400 ==> ({
            let h1 = r1 / 3600;
            let m1 = (r1 % 3600) / 60;
            let s1 = r1 % 60;
            let h2 = r2 / 3600;
            let m2 = (r2 % 3600) / 60;
            let s2 = r2 % 60;
            h1 < h2 || (h1 == h2 && (m1 < m2 || (m1 == m2 && s1 < s2)))
        }),
{
    assert(r1 == 3600 * (r1 / 3600) + 60 * ((r1 % 3600) / 60) + r1 % 60);
    assert(r2 == 3600 * (r2 / 3600) + 60 * ((r2 % 3600) / 60) + r2 % 60);
}

/// The default document namespace: a URL under the project's name whose
/// last segment is the first 16 hex digits of the BLAKE3 digest of
/// `name|created`.
pub open spec fn spec_namespace(name: Seq<char>, created_iso: Seq<char>) -> Seq<char> {
    "https://verepdev.github.io/"@ + name + "/"@ + lower_hex(
        blake3_digest(vstd::utf8::encode_utf8(name + "|"@ + created_iso)),
    ).take(16)
}

/// The namespace a document gets when the caller names none; the same
/// inputs always give the same namespace.
pub fn derive_namespace(name: &str, created_iso: &str) -> (res: String)
    ensures
        res@ == spec_namespace(name@, created_iso@),
{
    let mut key = name.to_owned();
    push_str(&mut key, "|");
    push_str(&mut key, created_iso);
    let hex = blake3_hex_of_str(key.as_str());
    let hex_chars = chars_of(hex.as_str());
    let short = string_of(&hex_chars.as_slice()[0..16]);
    assert(short@ =~= hex@.take(16));
    let mut out = "https://verepdev.github.io/".to_owned();
    push_str(&mut out, name);
    push_str(&mut out, "/");
    push_str(&mut out, short.as_str());
    out
}

/// The SPDX creator and annotator id of this tool at `version`.
pub fn tool_id(version: &str) -> (res: String)
    ensures
        res@ == "Tool: prompt-bom-"@ + version@,
{
    let mut s = "Tool: prompt-bom-".to_owned();
    push_str(&mut s, version);
    s
}

} // verus!
