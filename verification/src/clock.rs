//! Civil time: day numbers to calendar dates, and the timestamps the plugins
//! write.
use vstd::arithmetic::div_mod::{
    lemma_fundamental_div_mod, lemma_fundamental_div_mod_converse, lemma_hoist_over_denominator,
    lemma_mod_bound, lemma_mod_mod, lemma_mod_multiples_vanish,
};
use vstd::prelude::*;

use crate::decimal::{decimal, law_decimal_reads_back, law_zero_pad, number_of, padded_string, zero_pad};

verus! {

/// Leap years of the Gregorian calendar.
pub open spec fn is_leap(y: int) -> bool {
    y % 4 == 0 && (y % 100 != 0 || y % 400 == 0)
}

/// Days of a month.
pub open spec fn month_days(y: int, m: int) -> int {
    if m == 2 {
        if is_leap(y) {
            29
        } else {
            28
        }
    } else if m == 4 || m == 6 || m == 9 || m == 11 {
        30
    } else {
        31
    }
}

/// Days of a year before its month `m`.
pub open spec fn days_before_month(y: int, m: int) -> int
    decreases m,
{
    if m <= 1 {
        0
    } else {
        days_before_month(y, m - 1) + month_days(y, m - 1)
    }
}

/// Days before January 1 of a year, counted from January 1 of year 1.
pub open spec fn days_before_year(y: int) -> int {
    365 * (y - 1) + (y - 1) / 4 - (y - 1) / 100 + (y - 1) / 400
}

/// A date of the proleptic Gregorian calendar.
pub open spec fn is_date(y: int, m: int, d: int) -> bool {
    1 <= m <= 12 && 1 <= d <= month_days(y, m)
}

/// The day number of a date, counted from January 1, 1970.
pub open spec fn day_number(y: int, m: int, d: int) -> int {
    days_before_year(y) + days_before_month(y, m) + d - 1 - 719162
}

proof fn lemma_year_of_era(doe: int, yoe: int, doy: int)
    requires
        0 <= doe < 146097,
        yoe == (doe - doe / 1460 + doe / 36524 - doe / 146096) / 365,
        doy == doe - (365 * yoe + yoe / 4 - yoe / 100),
    ensures
        0 <= yoe < 400,
        0 <= doy <= 365,
        doy == 365 ==> is_leap(yoe + 1),
{
    let c = if doe >= 109572 {
        3
    } else {
        doe / 36524
    };
    let r = doe - 36524 * c;
    let q = if r >= 35064 {
        24
    } else {
        r / 1461
    };
    let s = r - 1461 * q;
    let t = if s >= 1095 {
        3
    } else {
        s / 365
    };
    let w = s - 365 * t;
    assert(0 <= c <= 3);
    assert(0 <= r <= 36524);
    assert(c < 3 ==> r < 36524);
    assert(0 <= q <= 24);
    assert(0 <= s <= 1460);
    assert(q == 24 && c < 3 ==> s < 1460);
    assert(0 <= t <= 3);
    assert(0 <= w <= 365);
    assert(t < 3 ==> w < 365);
    let u = 24 * c + q + 365 * t + w;
    assert(doe == 1460 * (25 * c + q) + u);
    let delta = if u >= 1460 {
        1int
    } else {
        0int
    };
    assert(doe / 1460 == 25 * c + q + delta);
    let last = if doe == 146096 {
        1int
    } else {
        0int
    };
    assert(doe / 146096 == last);
    assert(doe / 36524 == c + last) by {
        if r == 36524 {
            assert(c == 3);
        }
    }
    let y = 100 * c + 4 * q + t;
    assert(doe - doe / 1460 + doe / 36524 - doe / 146096 == 365 * y + w - delta);
    assert(0 <= w - delta <= 364);
    assert(yoe == y);
    assert(y / 4 == 25 * c + q);
    assert(y / 100 == c);
    assert(doy == w);
    if w == 365 {
        assert(t == 3);
        assert((y + 1) % 4 == 0);
        if q == 24 {
            assert(c == 3);
            assert(y == 399);
        } else {
            assert((y + 1) % 100 != 0);
        }
    }
}

proof fn lemma_month_table(y: int)
    ensures
        days_before_month(y, 1) == 0,
        days_before_month(y, 2) == 31,
        ({
            let l = if is_leap(y) {
                1int
            } else {
                0int
            };
            &&& days_before_month(y, 3) == 59 + l
            &&& days_before_month(y, 4) == 90 + l
            &&& days_before_month(y, 5) == 120 + l
            &&& days_before_month(y, 6) == 151 + l
            &&& days_before_month(y, 7) == 181 + l
            &&& days_before_month(y, 8) == 212 + l
            &&& days_before_month(y, 9) == 243 + l
            &&& days_before_month(y, 10) == 273 + l
            &&& days_before_month(y, 11) == 304 + l
            &&& days_before_month(y, 12) == 334 + l
        }),
{
    reveal_with_fuel(days_before_month, 13);
}

proof fn lemma_quotient_step(y: int, d: int)
    requires
        d > 1,
    ensures
        y / d == (y - 1) / d + if y % d == 0 {
            1int
        } else {
            0int
        },
{
    lemma_fundamental_div_mod(y, d);
    lemma_mod_bound(y, d);
    let q = y / d;
    if y % d == 0 {
        assert(y - 1 == (q - 1) * d + (d - 1)) by (nonlinear_arith)
            requires
                y == d * q,
        ;
        lemma_fundamental_div_mod_converse(y - 1, d, q - 1, d - 1);
    } else {
        assert(y - 1 == q * d + (y % d - 1)) by (nonlinear_arith)
            requires
                y == d * q + y % d,
        ;
        lemma_fundamental_div_mod_converse(y - 1, d, q, y % d - 1);
    }
}

proof fn lemma_leap_counts(y: int)
    ensures
        y / 4 - y / 100 + y / 400 == (y - 1) / 4 - (y - 1) / 100 + (y - 1) / 400 + (if is_leap(y) {
            1int
        } else {
            0int
        }),
{
    lemma_quotient_step(y, 4);
    lemma_quotient_step(y, 100);
    lemma_quotient_step(y, 400);
    lemma_mod_mod(y, 4, 25);
    lemma_mod_mod(y, 100, 4);
}

proof fn lemma_era_year(era: int, yoe: int)
    requires
        0 <= yoe < 400,
    ensures
        ({
            let y = yoe + 400 * era;
            &&& 365 * y + y / 4 - y / 100 + y / 400 == 146097 * era + 365 * yoe + yoe / 4 - yoe
                / 100
            &&& is_leap(y + 1) == is_leap(yoe + 1)
        }),
{
    let y = yoe + 400 * era;
    lemma_hoist_over_denominator(yoe, era, 400);
    lemma_hoist_over_denominator(yoe, 4 * era, 100);
    lemma_hoist_over_denominator(yoe, 100 * era, 4);
    lemma_mod_multiples_vanish(100 * era, yoe + 1, 4);
    lemma_mod_multiples_vanish(4 * era, yoe + 1, 100);
    lemma_mod_multiples_vanish(era, yoe + 1, 400);
}

/// The month and the day of a day counted from March 1.
proof fn lemma_month_of(doy: int, mp: int, start: int)
    requires
        0 <= doy <= 365,
        mp == (5 * doy + 2) / 153,
        start == (153 * mp + 2) / 5,
    ensures
        0 <= mp <= 11,
        start <= doy,
        start == (if mp == 0 {
            0
        } else if mp == 1 {
            31
        } else if mp == 2 {
            61
        } else if mp == 3 {
            92
        } else if mp == 4 {
            122
        } else if mp == 5 {
            153
        } else if mp == 6 {
            184
        } else if mp == 7 {
            214
        } else if mp == 8 {
            245
        } else if mp == 9 {
            275
        } else if mp == 10 {
            306
        } else {
            337int
        }),
        mp < 11 ==> doy < start + (if mp == 1 || mp == 3 || mp == 6 || mp == 8 {
            30int
        } else {
            31int
        }),
{
}

/// The date that belongs to a year of an era and a day of that year.
#[verifier::spinoff_prover]
proof fn lemma_civil(era: int, yoe: int, doy: int, mp: int, d: int, m: int, year: int)
    requires
        0 <= yoe < 400,
        0 <= doy <= 365,
        doy == 365 ==> is_leap(yoe + 1),
        mp == (5 * doy + 2) / 153,
        d == doy - (153 * mp + 2) / 5 + 1,
        m == (if mp < 10 {
            mp + 3
        } else {
            mp - 9
        }),
        year == yoe + 400 * era + (if m <= 2 {
            1int
        } else {
            0int
        }),
    ensures
        is_date(year, m, d),
        day_number(year, m, d) == 146097 * era + 365 * yoe + yoe / 4 - yoe / 100 + doy - 719468,
{
    let y = yoe + 400 * era;
    let start = (153 * mp + 2) / 5;
    lemma_month_of(doy, mp, start);
    lemma_era_year(era, yoe);
    lemma_month_table(year);
    lemma_leap_counts(y);
    if m > 2 {
        assert(days_before_month(year, m) == 59 + start + (if is_leap(year) {
            1int
        } else {
            0int
        }));
    } else {
        assert(days_before_month(year, m) == start - 306);
    }
}

/// The date of a day number.
#[verifier::spinoff_prover]
pub fn civil_from_days(z: i64) -> (r: (i64, i64, i64))
    requires
        z <= i64::MAX - 719468,
    ensures
        is_date(r.0 as int, r.1 as int, r.2 as int),
        day_number(r.0 as int, r.1 as int, r.2 as int) == z,
{
    let z0: i64 = z + 719_468;
    let era: i64 = if z0 >= 0 {
        z0 / 146_097
    } else {
        -((146_096 - z0) / 146_097)
    };
    assert(era == z0 as int / 146097);
    let doe: i64 = z0 - era * 146_097;
    assert(0 <= doe < 146097);
    let yoe: i64 = (doe - doe / 1460 + doe / 36_524 - doe / 146_096) / 365;
    proof {
        lemma_year_of_era(
            doe as int,
            yoe as int,
            doe - (365 * yoe + yoe as int / 4 - yoe as int / 100),
        );
    }
    let y: i64 = yoe + era * 400;
    let doy: i64 = doe - (365 * yoe + yoe / 4 - yoe / 100);
    let mp: i64 = (5 * doy + 2) / 153;
    proof {
        lemma_month_of(doy as int, mp as int, (153 * mp + 2) / 5);
    }
    let d: i64 = doy - (153 * mp + 2) / 5 + 1;
    let m: i64 = if mp < 10 {
        mp + 3
    } else {
        mp - 9
    };
    let year: i64 = if m <= 2 {
        y + 1
    } else {
        y
    };
    proof {
        lemma_civil(
            era as int,
            yoe as int,
            doy as int,
            mp as int,
            d as int,
            m as int,
            year as int,
        );
    }
    (year, m, d)
}

/// A date and a time of day with second precision, in UTC.
pub open spec fn timestamp(y: int, mo: int, d: int, h: int, mi: int, s: int) -> Seq<char> {
    zero_pad(decimal(y as nat), 4) + "-"@ + zero_pad(decimal(mo as nat), 2) + "-"@ + zero_pad(
        decimal(d as nat),
        2,
    ) + "T"@ + zero_pad(decimal(h as nat), 2) + ":"@ + zero_pad(decimal(mi as nat), 2) + ":"@
        + zero_pad(decimal(s as nat), 2) + "Z"@
}

/// `text` is the timestamp of the instant `secs` seconds after the Unix epoch.
pub open spec fn is_timestamp_of(text: Seq<char>, secs: int) -> bool {
    exists|y: int, mo: int, d: int|
        #![trigger day_number(y, mo, d)]
        is_date(y, mo, d) && y >= 1970 && day_number(y, mo, d) == secs / 86400 && text == timestamp(
            y,
            mo,
            d,
            (secs % 86400) / 3600,
            (secs % 3600) / 60,
            secs % 60,
        )
}

proof fn lemma_year_from_epoch(y: int, m: int, d: int)
    requires
        is_date(y, m, d),
        day_number(y, m, d) >= 0,
    ensures
        y >= 1970,
{
    lemma_month_table(y);
    assert(days_before_month(y, m) + d - 1 < 366);
    if y < 1970 {
        assert(days_before_year(y) <= 719162 - 366 + 1 || y == 1969);
        assert(days_before_year(1969) == 719162 - 365);
        if y == 1969 {
            assert(!is_leap(1969));
            assert(days_before_month(1969, m) + d - 1 < 365);
        }
    }
}

/// The timestamp `YYYY-MM-DDTHH:MM:SSZ` of a Unix time.
pub fn rfc3339_utc(secs: u64) -> (r: String)
    ensures
        is_timestamp_of(r@, secs as int),
{
    let days: u64 = secs / 86_400;
    let rem: u64 = secs % 86_400;
    let h: u64 = rem / 3600;
    let mi: u64 = (rem % 3600) / 60;
    let s: u64 = rem % 60;
    let (y, mo, d) = civil_from_days(days as i64);
    proof {
        lemma_year_from_epoch(y as int, mo as int, d as int);
        lemma_mod_mod(secs as int, 3600, 24);
        lemma_mod_mod(secs as int, 60, 1440);
    }
    let mut out = padded_string(y as u64, 4);
    out.append("-");
    out.append(padded_string(mo as u64, 2).as_str());
    out.append("-");
    out.append(padded_string(d as u64, 2).as_str());
    out.append("T");
    out.append(padded_string(h, 2).as_str());
    out.append(":");
    out.append(padded_string(mi, 2).as_str());
    out.append(":");
    out.append(padded_string(s, 2).as_str());
    out.append("Z");
    assert(day_number(y as int, mo as int, d as int) == secs as int / 86400);
    out
}

/// A point in time of `std`; opaque here.
#[verifier::external_type_specification]
#[verifier::external_body]
pub struct ExSystemTime(std::time::SystemTime);

/// Why a point in time is not after another, in `std`; opaque here.
#[verifier::external_type_specification]
#[verifier::external_body]
pub struct ExSystemTimeError(std::time::SystemTimeError);

/// `SystemTime::now` draws the time. Nothing is claimed of it.
pub assume_specification[ std::time::SystemTime::now ]() -> (r: std::time::SystemTime)
;

/// `SystemTime::duration_since` gives the time from an earlier point, or an error where
/// that is later. Nothing is claimed of which it is.
pub assume_specification[ std::time::SystemTime::duration_since ](
    t: &std::time::SystemTime,
    earlier: std::time::SystemTime,
) -> (r: Result<core::time::Duration, std::time::SystemTimeError>)
;

/// `Duration::as_secs` gives the whole seconds of a time span. Nothing is claimed of
/// them.
pub assume_specification[ core::time::Duration::as_secs ](d: &core::time::Duration) -> (r: u64)
;

/// The point in time that `std::time::UNIX_EPOCH` stands for. Nothing is claimed of it.
#[verifier::external_body]
fn unix_epoch() -> (r: std::time::SystemTime) {
    std::time::UNIX_EPOCH
}

/// Seconds since the Unix epoch, 0 before it. They are drawn from the machine's clock,
/// so nothing is claimed of them.
fn system_seconds() -> (r: u64) {
    match std::time::SystemTime::now().duration_since(unix_epoch()) {
        Ok(d) => d.as_secs(),
        Err(_) => 0,
    }
}

/// The current UTC time as `YYYY-MM-DDTHH:MM:SSZ`.
pub fn now_rfc3339() -> (r: String)
    ensures
        exists|secs: int| 0 <= secs <= u64::MAX && #[trigger] is_timestamp_of(r@, secs),
{
    let secs: u64 = system_seconds();
    let r = rfc3339_utc(secs);
    assert(is_timestamp_of(r@, secs as int));
    r
}

/// A number of seconds as a signed one; past the signed range it wraps.
pub fn signed_seconds(secs: u64) -> (r: i64)
    ensures
        r == secs as i64,
        secs <= i64::MAX ==> r == secs,
{
    secs as i64
}

/// The current Unix time in seconds: those of the machine's clock through
/// [`signed_seconds`]. Nothing is claimed of the value.
pub fn unix_now() -> (r: i64) {
    signed_seconds(system_seconds())
}

/// A text of the pattern `YYYY-MM-DDTHH:MM:SS.mmmZ`, as its marks show.
pub open spec fn is_millis_timestamp(s: Seq<char>) -> bool {
    let n = s.len();
    &&& n >= 24
    &&& s[n - 1] == 'Z' && s[n - 5] == '.' && s[n - 8] == ':' && s[n - 11] == ':' && s[n - 14]
        == 'T' && s[n - 17] == '-' && s[n - 20] == '-'
    &&& forall|i: int| n - 4 <= i < n - 1 ==> '0' <= #[trigger] s[i] <= '9'
}

/// The current UTC time with milliseconds, `YYYY-MM-DDTHH:MM:SS.mmmZ`, rendered
/// by `chrono`'s `Utc::now` and `DateTime::format`. Claimed of every outcome: from
/// its end it has the marks of that pattern, with three digits for the milliseconds;
/// the year may take more than four characters.
#[verifier::external_body]
pub fn now_iso() -> (r: String)
    ensures
        is_millis_timestamp(r@),
{
    chrono::Utc::now().format("%Y-%m-%dT%H:%M:%S%.3fZ").to_string()
}

/// The calendar: the day after a day is the next of its month, or the first of the next
/// month, or the first of the next year; the days are counted from the first of 1970.
pub proof fn law_days_follow_each_other(y: int, m: int, d: int)
    requires
        is_date(y, m, d),
    ensures
        day_number(1970, 1, 1) == 0,
        is_date(y, m, d + 1) ==> day_number(y, m, d + 1) == day_number(y, m, d) + 1,
        !is_date(y, m, d + 1) && m < 12 ==> is_date(y, m + 1, 1) && day_number(y, m + 1, 1)
            == day_number(y, m, d) + 1,
        !is_date(y, m, d + 1) && m == 12 ==> day_number(y + 1, 1, 1) == day_number(y, m, d) + 1,
{
    lemma_month_table(y);
    lemma_month_table(y + 1);
    lemma_month_table(1970);
    lemma_leap_counts(y);
}

/// The lengths of the months, and the years that have a day more: those that four divides,
/// but of the centuries only those that four hundred divides.
pub proof fn law_months(y: int, m: int)
    ensures
        m == 1 || m == 3 || m == 5 || m == 7 || m == 8 || m == 10 || m == 12 ==> month_days(y, m)
            == 31,
        m == 4 || m == 6 || m == 9 || m == 11 ==> month_days(y, m) == 30,
        m == 2 && y % 400 == 0 ==> month_days(y, m) == 29,
        m == 2 && y % 100 == 0 && y % 400 != 0 ==> month_days(y, m) == 28,
        m == 2 && y % 4 == 0 && y % 100 != 0 ==> month_days(y, m) == 29,
        m == 2 && y % 4 != 0 ==> month_days(y, m) == 28,
        is_date(y, m, 1) <==> 1 <= m <= 12,
        !is_date(y, m, 0),
        !is_date(y, m, month_days(y, m) + 1),
{
}

proof fn lemma_number_padded(s: Seq<char>, width: nat)
    ensures
        number_of(zero_pad(s, width)) == number_of(s),
    decreases width - s.len(),
{
    if s.len() < width {
        lemma_number_padded(seq!['0'] + s, width);
        lemma_number_zero(s);
    }
}

proof fn lemma_number_zero(s: Seq<char>)
    ensures
        number_of(seq!['0'] + s) == number_of(s),
    decreases s.len(),
{
    let t = seq!['0'] + s;
    if s.len() > 0 {
        lemma_number_zero(s.drop_last());
        assert(t.drop_last() =~= seq!['0'] + s.drop_last());
        assert(t.last() == s.last());
    } else {
        assert(t.drop_last() =~= s);
        assert(number_of(t.drop_last()) == 0);
        assert(t.last() == '0');
    }
}

proof fn lemma_two_digits(n: int)
    requires
        0 <= n < 100,
    ensures
        zero_pad(decimal(n as nat), 2).len() == 2,
        number_of(zero_pad(decimal(n as nat), 2)) == n,
{
    law_decimal_reads_back(n as nat);
    lemma_number_padded(decimal(n as nat), 2);
    law_zero_pad(decimal(n as nat), 2);
    reveal_with_fuel(decimal, 3);
}

/// A timestamp reads as its instant: year, month, day, hour, minute and second stand in it in
/// this order, all but the year with two digits, and together count its seconds.
pub proof fn law_timestamp_reads_back(text: Seq<char>, secs: int)
    requires
        secs >= 0,
        is_timestamp_of(text, secs),
    ensures
        ({
            let n = text.len() as int;
            let y = number_of(text.take(n - 16));
            let mo = number_of(text.subrange(n - 15, n - 13));
            let d = number_of(text.subrange(n - 12, n - 10));
            let h = number_of(text.subrange(n - 9, n - 7));
            let mi = number_of(text.subrange(n - 6, n - 4));
            let s = number_of(text.subrange(n - 3, n - 1));
            &&& n >= 20
            &&& text[n - 16] == '-' && text[n - 13] == '-' && text[n - 10] == 'T' && text[n - 7]
                == ':' && text[n - 4] == ':' && text[n - 1] == 'Z'
            &&& y >= 1970 && is_date(y, mo, d)
            &&& 0 <= h < 24 && 0 <= mi < 60 && 0 <= s < 60
            &&& 86400 * day_number(y, mo, d) + 3600 * h + 60 * mi + s == secs
        }),
{
    let (y, mo, d) = choose|y: int, mo: int, d: int|
        #![trigger day_number(y, mo, d)]
        is_date(y, mo, d) && y >= 1970 && day_number(y, mo, d) == secs / 86400 && text == timestamp(
            y,
            mo,
            d,
            (secs % 86400) / 3600,
            (secs % 3600) / 60,
            secs % 60,
        );
    let h = (secs % 86400) / 3600;
    let mi = (secs % 3600) / 60;
    let s = secs % 60;
    reveal_strlit("-");
    reveal_strlit("T");
    reveal_strlit(":");
    reveal_strlit("Z");
    lemma_two_digits(mo);
    lemma_two_digits(d);
    lemma_two_digits(h);
    lemma_two_digits(mi);
    lemma_two_digits(s);
    law_decimal_reads_back(y as nat);
    lemma_number_padded(decimal(y as nat), 4);
    law_zero_pad(decimal(y as nat), 4);
    let ty = zero_pad(decimal(y as nat), 4);
    let tm = zero_pad(decimal(mo as nat), 2);
    let td = zero_pad(decimal(d as nat), 2);
    let th = zero_pad(decimal(h as nat), 2);
    let ti = zero_pad(decimal(mi as nat), 2);
    let ts = zero_pad(decimal(s as nat), 2);
    let n = text.len() as int;
    assert(n == ty.len() + 16);
    assert(text.take(n - 16) =~= ty);
    assert(text.subrange(n - 15, n - 13) =~= tm);
    assert(text.subrange(n - 12, n - 10) =~= td);
    assert(text.subrange(n - 9, n - 7) =~= th);
    assert(text.subrange(n - 6, n - 4) =~= ti);
    assert(text.subrange(n - 3, n - 1) =~= ts);
    assert(secs == 86400 * (secs / 86400) + secs % 86400);
    assert(3600 * h + 60 * mi + s == secs % 86400);
}

}
