//! What the commands compute: dates for the history, the history entry of a
//! commit, and the status report.

use vstd::prelude::*;
use vstd::utf8::*;
use vstd::string::StringSliceAdditionalSpecFns;
use crate::codec::{
    ascii_bytes, decimal, decimal_bytes, find_byte, lemma_ascii_bounded_piece,
    lemma_ascii_valid_utf8, lemma_decimal_digits, slice_copy, string_of_utf8,
};
use crate::codec::{hex_encode, hex_lower, lemma_lex_irreflexive};
use crate::digest::{sha1, sha1_digest};
use crate::index::{entry_key, sorted_by_path, EntryView, Index, IndexEntry};
use crate::object::{lemma_text_lines_empty, lemma_text_lines_step, strip_cr, text_lines, CommitObject};
use crate::storage::object_bytes;

verus! {

/// Leap years of the Gregorian calendar.
pub open spec fn leap_year(y: nat) -> bool {
    (y % 4 == 0 && y % 100 != 0) || y % 400 == 0
}

/// Days in year `y`.
pub open spec fn days_in_year(y: nat) -> nat {
    if leap_year(y) {
        366
    } else {
        365
    }
}

/// Days from the start of 1970 to the start of year `y`.
pub open spec fn days_before(y: nat) -> nat
    decreases y,
{
    if y <= 1970 {
        0
    } else {
        days_before((y - 1) as nat) + days_in_year((y - 1) as nat)
    }
}

/// The year that day `days` of year `year` (counting from 0) falls in, and
/// the day within it.
pub open spec fn year_and_day(days: nat, year: nat) -> (nat, nat)
    decreases days,
{
    if days < days_in_year(year) {
        (year, days)
    } else {
        year_and_day((days - days_in_year(year)) as nat, year + 1)
    }
}

/// Days in month `m` (0 for January) of a year.
pub open spec fn days_in_month(m: nat, leap: bool) -> nat {
    if m == 1 {
        if leap {
            29
        } else {
            28
        }
    } else if m == 3 || m == 5 || m == 8 || m == 10 {
        30
    } else {
        31
    }
}

/// The month (1 for January) and day of the month (from 1) of day `rem`
/// of a year, counting months from `m` (0 for January).
pub open spec fn month_and_day(rem: nat, m: nat, leap: bool) -> (nat, nat)
    decreases 12 - m,
{
    if m >= 12 || rem < days_in_month(m, leap) {
        (m + 1, rem + 1)
    } else {
        month_and_day((rem - days_in_month(m, leap)) as nat, m + 1, leap)
    }
}

/// The first day of each month (1 for January) within a year, counting the
/// year's days from 0: January has 31 days, February 28 or 29, March 31,
/// April 30, May 31, June 30, July 31, August 31, September 30, October 31,
/// November 30, December 31.
pub open spec fn month_start(month: nat, leap: bool) -> int {
    let l: int = if leap { 1 } else { 0 };
    if month <= 1 { 0 }
    else if month == 2 { 31 }
    else if month == 3 { 59 + l }
    else if month == 4 { 90 + l }
    else if month == 5 { 120 + l }
    else if month == 6 { 151 + l }
    else if month == 7 { 181 + l }
    else if month == 8 { 212 + l }
    else if month == 9 { 243 + l }
    else if month == 10 { 273 + l }
    else if month == 11 { 304 + l }
    else if month == 12 { 334 + l }
    else { 365 + l }
}

/// A day of a year (counting from 0) falls in the Gregorian month and on
/// the day of that month (both counting from 1) that the calendar gives it:
/// the month is the one whose days hold it, and the day is its distance
/// from the month's first day, plus one.
pub proof fn lemma_month_and_day_calendar(rem: nat, leap: bool)
    requires
        rem < (if leap { 366nat } else { 365nat }),
    ensures
        1 <= month_and_day(rem, 0, leap).0 <= 12,
        month_start(month_and_day(rem, 0, leap).0, leap) <= rem < month_start(month_and_day(rem, 0, leap).0 + 1, leap),
        month_and_day(rem, 0, leap).1 == rem - month_start(month_and_day(rem, 0, leap).0, leap) + 1,
{
    reveal_with_fuel(month_and_day, 13);
}

/// The Gregorian calendar repeats every 400 years, which hold 146097 days.
pub proof fn lemma_four_centuries(y: nat)
    requires
        y >= 1970,
    ensures
        days_before(y + 400) == days_before(y) + 146097,
{
    lemma_days_before_closed(y);
    lemma_days_before_closed(y + 400);
    let n: int = y - 1;
    assert(leaps_through(n + 400) == leaps_through(n) + 97) by (nonlinear_arith)
        requires
            n >= 0,
    {
    }
}

/// The year and day that a day count falls on: counting `d` days from the
/// start of `year` reaches day `.1` (from 0) of year `.0`, which is within
/// that year.
pub proof fn lemma_year_and_day_split(d: nat, year: nat)
    requires
        year >= 1970,
    ensures
        year_and_day(d, year).0 >= year,
        year_and_day(d, year).1 < days_in_year(year_and_day(d, year).0),
        days_before(year) + d == days_before(year_and_day(d, year).0) + year_and_day(d, year).1,
    decreases d,
{
    if d >= days_in_year(year) {
        lemma_year_and_day_split((d - days_in_year(year)) as nat, year + 1);
        assert(days_before(year + 1) == days_before(year) + days_in_year(year));
    }
}

/// Whether a year is a leap year.
pub fn is_leap(year: u32) -> (res: bool)
    ensures
        res == leap_year(year as nat),
{
    (year % 4 == 0 && year % 100 != 0) || (year % 400 == 0)
}

/// `n` in decimal, padded with zeros on the left to `width` digits.
pub open spec fn padded(n: nat, width: nat) -> Seq<u8> {
    let d = decimal(n);
    if d.len() < width {
        Seq::new((width - d.len()) as nat, |i: int| 48u8) + d
    } else {
        d
    }
}

/// Zeros in front of decimal digits leave the number they spell alone.
proof fn lemma_leading_zeros(z: nat, d: Seq<u8>)
    ensures
        crate::codec::digits_value(Seq::new(z, |i: int| 48u8) + d) == crate::codec::digits_value(d),
    decreases d.len(),
{
    let zs = Seq::new(z, |i: int| 48u8);
    if d.len() == 0 {
        assert(zs + d =~= zs);
        lemma_zeros_value(z);
    } else {
        lemma_leading_zeros(z, d.drop_last());
        assert((zs + d).drop_last() =~= zs + d.drop_last());
        assert((zs + d).last() == d.last());
    }
}

/// A run of zeros spells 0.
proof fn lemma_zeros_value(z: nat)
    ensures
        crate::codec::digits_value(Seq::new(z, |i: int| 48u8)) == 0,
    decreases z,
{
    if z > 0 {
        lemma_zeros_value((z - 1) as nat);
        assert(Seq::new(z, |i: int| 48u8).drop_last() =~= Seq::new((z - 1) as nat, |i: int| 48u8));
    }
}

/// A number padded to a width is decimal digits, at least that many, and
/// no more than the number needs, spelling the number itself.
pub proof fn lemma_padded_digits(n: nat, width: nat)
    ensures
        crate::codec::all_digits(padded(n, width)),
        crate::codec::digits_value(padded(n, width)) == n,
        padded(n, width).len() >= width,
        padded(n, width).len() > width ==> padded(n, width).len() == 1 || padded(n, width)[0] != 48u8,
{
    crate::codec::lemma_decimal_value(n);
    let d = decimal(n);
    if d.len() < width {
        let z = (width - d.len()) as nat;
        lemma_leading_zeros(z, d);
        assert forall|i: int| 0 <= i < padded(n, width).len() implies 48 <= #[trigger] padded(n, width)[i] <= 57 by {
            if i >= z {
                assert(padded(n, width)[i] == d[i - z]);
            }
        }
    } else if d.len() > width {
        lemma_decimal_leading(n);
    }
}

/// Decimal digits start with a zero only for 0 itself.
proof fn lemma_decimal_leading(n: nat)
    ensures
        decimal(n).len() > 1 ==> decimal(n)[0] != 48u8,
    decreases n,
{
    if n >= 10 {
        let m = n / 10;
        lemma_decimal_leading(m);
        lemma_decimal_digits(m);
        assert(decimal(n) == decimal(m) + seq![(n % 10 + 48) as u8]);
        assert(decimal(n)[0] == decimal(m)[0]);
        if m < 10 {
            assert(decimal(m) == seq![(m + 48) as u8]);
            assert(1 <= m);
        } else {
            lemma_decimal_digits(m / 10);
            assert(decimal(m) == decimal(m / 10) + seq![(m % 10 + 48) as u8]);
        }
    }
}

/// Days in a year.
fn year_days(year: u32) -> (res: u64)
    ensures
        res == days_in_year(year as nat),
{
    if is_leap(year) {
        366
    } else {
        365
    }
}

/// A date `YYYY-MM-DD` and a time `HH:MM:SS +0000` for seconds since the
/// Unix epoch, in UTC.
pub open spec fn datetime_texts(secs: nat) -> (Seq<u8>, Seq<u8>) {
    let (year, rem) = year_and_day(secs / 86400, 1970);
    let (month, day) = month_and_day(rem, 0, leap_year(year));
    (
        padded(year, 4) + seq![45u8] + padded(month, 2) + seq![45u8] + padded(day, 2),
        padded((secs / 3600) % 24, 2) + seq![58u8] + padded((secs / 60) % 60, 2) + seq![58u8]
            + padded(secs % 60, 2) + seq![32u8, 43u8, 48u8, 48u8, 48u8, 48u8],
    )
}

/// The dates whose year fits in 32 bits.
pub open spec fn year_fits(secs: nat) -> bool {
    secs / 86400 < days_before(0x1_0000_0000)
}

/// Leap years from year 1 up to `n`.
spec fn leaps_through(n: int) -> int {
    n / 4 - n / 100 + n / 400
}

/// Days from the start of 1970 to the start of year `y`, counted in closed
/// form.
proof fn lemma_days_before_closed(y: nat)
    requires
        y >= 1970,
    ensures
        days_before(y) == 365 * (y - 1970) + leaps_through(y - 1) - leaps_through(1969),
    decreases y,
{
    if y > 1970 {
        lemma_days_before_closed((y - 1) as nat);
        let n: int = y - 1;
        assert(leaps_through(n) - leaps_through(n - 1) == if leap_year(n as nat) { 1int } else { 0int }) by (nonlinear_arith)
            requires
                n >= 1970,
        {
        }
    }
}

/// The number of days before year 2^32.
proof fn lemma_days_before_limit()
    ensures
        days_before(0x1_0000_0000) == 1568703873082,
{
    lemma_days_before_closed(0x1_0000_0000);
    assert(leaps_through(4294967295) == 1041529569);
    assert(leaps_through(1969) == 477);
}

/// Whether seconds since the epoch fall in a year that fits in 32 bits, as
/// `unix_to_datetime` asks.
pub fn datetime_in_range(secs: u64) -> (res: bool)
    ensures
        res == year_fits(secs as nat),
{
    proof {
        lemma_days_before_limit();
    }
    secs / 86400 < 1568703873082
}

/// Days from the start of year 0 to the start of year `y`.
pub open spec fn days_since_year0(y: nat) -> nat
    decreases y,
{
    if y == 0 {
        0
    } else {
        days_since_year0((y - 1) as nat) + days_in_year((y - 1) as nat)
    }
}

/// The year and the day within it (counting from 0) of day `d` of year
/// `year`, where a negative `d` counts back into the years before; year 0
/// is the earliest.
pub open spec fn year_and_day_back(d: int, year: nat) -> (nat, nat)
    decreases year,
{
    if d >= 0 {
        (year, d as nat)
    } else if year == 0 {
        (0, 0)
    } else {
        year_and_day_back(d + days_in_year((year - 1) as nat), (year - 1) as nat)
    }
}

/// A date `YYYY-MM-DD` and a time `HH:MM:SS +0000` for a negative Unix
/// time, in UTC.
pub open spec fn before_epoch_texts(ts: int) -> (Seq<u8>, Seq<u8>) {
    let (year, day) = year_and_day_back(ts / 86400, 1970);
    let (month, mday) = month_and_day(day, 0, leap_year(year));
    let rem = (ts % 86400) as nat;
    (
        padded(year, 4) + seq![45u8] + padded(month, 2) + seq![45u8] + padded(mday, 2),
        padded(rem / 3600, 2) + seq![58u8] + padded((rem / 60) % 60, 2) + seq![58u8]
            + padded(rem % 60, 2) + seq![32u8, 43u8, 48u8, 48u8, 48u8, 48u8],
    )
}

/// The Unix times whose date has a year from 0 to 2^32 - 1, the years a
/// 32-bit year counter holds.
pub open spec fn timestamp_fits(ts: i64) -> bool {
    if ts >= 0 {
        year_fits(ts as nat)
    } else {
        ts / 86400 >= -(days_since_year0(1970) as int)
    }
}

/// Days from the start of year 0 to the start of year `y`, counted in
/// closed form.
proof fn lemma_days_since_year0_closed(y: nat)
    requires
        y >= 1,
    ensures
        days_since_year0(y) == 365 * y + leaps_through(y - 1) + 1,
    decreases y,
{
    if y > 1 {
        lemma_days_since_year0_closed((y - 1) as nat);
        let n: int = y - 1;
        assert(leaps_through(n) - leaps_through(n - 1) == if leap_year(n as nat) { 1int } else { 0int }) by (nonlinear_arith)
            requires
                n >= 1,
        {
        }
        assert(days_since_year0(y) == days_since_year0((y - 1) as nat) + days_in_year((y - 1) as nat));
    } else {
        assert(days_since_year0(0) == 0);
        assert(leap_year(0));
        assert(leaps_through(0) == 0);
        assert(days_since_year0(1) == days_since_year0(0) + days_in_year(0));
    }
}

/// There are 719528 days from the start of year 0 to the start of 1970.
proof fn lemma_days_to_epoch()
    ensures
        days_since_year0(1970) == 719528,
{
    lemma_days_since_year0_closed(1970);
    assert(leaps_through(1969) == 477);
}

/// Whether a Unix time falls in a year from 0 to 2^32 - 1, as
/// `format_timestamp` asks.
pub fn timestamp_in_range(ts: i64) -> (res: bool)
    ensures
        res == timestamp_fits(ts),
{
    proof {
        lemma_days_to_epoch();
    }
    if ts >= 0 {
        datetime_in_range(ts as u64)
    } else {
        assert(ts / 86400 >= -719528 <==> ts >= -62167219200) by (nonlinear_arith);
        ts >= -62167219200
    }
}

/// Appends `n` in decimal, padded with zeros to `width` digits.
fn push_padded(v: &mut Vec<u8>, n: u64, width: usize)
    ensures
        final(v)@ == old(v)@ + padded(n as nat, width as nat),
        ascii_bytes(padded(n as nat, width as nat)),
{
    let d = decimal_bytes(n);
    proof {
        lemma_decimal_digits(n as nat);
    }
    let mut k = d.len();
    let ghost start = v@;
    while k < width
        invariant
            d@ == decimal(n as nat),
            d@.len() <= k,
            k <= width || k == d@.len(),
            v@ == start + Seq::new((k - d@.len()) as nat, |i: int| 48u8),
        decreases width - k,
    {
        v.push(48u8);
        k = k + 1;
        assert(v@ =~= start + Seq::new((k - d@.len()) as nat, |i: int| 48u8));
    }
    if width < d.len() {
        assert(v@ =~= start);
    }
    v.extend_from_slice(d.as_slice());
    assert(v@ =~= start + padded(n as nat, width as nat));
}

/// Whether `days` is past the days of `year`, and how many are left then.
proof fn lemma_year_step(days: nat, year: nat)
    requires
        days >= days_in_year(year),
    ensures
        year_and_day(days, year) == year_and_day((days - days_in_year(year)) as nat, year + 1),
{
}

/// The month (from 1) and day of the month (from 1) of day `rem` (from 0)
/// of a year.
fn month_of(rem: u64, leap: bool) -> (res: (u32, u64))
    requires
        rem < 366,
    ensures
        month_and_day(rem as nat, 0, leap) == (res.0 as nat, res.1 as nat),
{
    let mut remaining = rem;
    let mut mi: u64 = 0;
    while mi < 12
        invariant
            remaining <= rem,
            mi <= 12,
            month_and_day(rem as nat, 0, leap) == month_and_day(remaining as nat, mi as nat, leap),
        decreases 12 - mi,
    {
        let dim: u64 = if mi == 1 {
            if leap {
                29
            } else {
                28
            }
        } else if mi == 3 || mi == 5 || mi == 8 || mi == 10 {
            30
        } else {
            31
        };
        assert(dim == days_in_month(mi as nat, leap));
        if remaining < dim {
            return ((mi + 1) as u32, remaining + 1);
        }
        remaining = remaining - dim;
        mi = mi + 1;
    }
    (13, remaining + 1)
}

/// Splits seconds since the Unix epoch into a UTC date and time.
pub fn unix_to_datetime(secs: u64) -> (res: (String, String))
    requires
        year_fits(secs as nat),
    ensures
        encode_utf8(res.0@) == datetime_texts(secs as nat).0,
        encode_utf8(res.1@) == datetime_texts(secs as nat).1,
{
    let s = secs % 60;
    let m = (secs / 60) % 60;
    let h = (secs / 3600) % 24;
    let days = secs / 86400;
    let mut year: u32 = 1970;
    let mut remaining_days: u64 = days;
    assert(days_before(1970) == 0);
    while remaining_days >= year_days(year)
        invariant
            days as nat == days_before(year as nat) + remaining_days,
            year >= 1970,
            days < days_before(0x1_0000_0000),
            year_and_day(days as nat, 1970) == year_and_day(remaining_days as nat, year as nat),
        decreases remaining_days,
    {
        let diy = year_days(year);
        proof {
            lemma_year_step(remaining_days as nat, year as nat);
            assert(days_before((year + 1) as nat) == days_before(year as nat) + days_in_year(year as nat));
            if year == 0xffff_ffff {
                assert(days_before(0x1_0000_0000) == days_before(year as nat) + days_in_year(year as nat));
            }
        }
        remaining_days = remaining_days - diy;
        year = year + 1;
    }
    let leap = is_leap(year);
    let ghost yd = year_and_day(days as nat, 1970);
    assert(yd == (year as nat, remaining_days as nat));
    let (month, day) = month_of(remaining_days, leap);
    let ghost md = month_and_day(yd.1, 0, leap);
    assert(md == (month as nat, day as nat));
    let mut date: Vec<u8> = Vec::new();
    push_padded(&mut date, year as u64, 4);
    date.push(45u8);
    push_padded(&mut date, month as u64, 2);
    date.push(45u8);
    push_padded(&mut date, day, 2);
    let mut time: Vec<u8> = Vec::new();
    push_padded(&mut time, h, 2);
    time.push(58u8);
    push_padded(&mut time, m, 2);
    time.push(58u8);
    push_padded(&mut time, s, 2);
    time.push(32u8);
    time.push(43u8);
    time.push(48u8);
    time.push(48u8);
    time.push(48u8);
    time.push(48u8);
    let ghost dt = datetime_texts(secs as nat);
    assert(date@ =~= dt.0);
    assert(time@ =~= dt.1);
    proof {
        assert(ascii_bytes(date@));
        assert(ascii_bytes(time@));
        lemma_ascii_valid_utf8(date@);
        lemma_ascii_valid_utf8(time@);
    }
    (string_of_utf8(date), string_of_utf8(time))
}


/// `YYYY-MM-DD` and `HH:MM:SS +0000` from the parts of a date and time.
fn date_time_strings(year: u64, month: u64, day: u64, h: u64, m: u64, sec: u64) -> (res: (String, String))
    ensures
        encode_utf8(res.0@) == padded(year as nat, 4) + seq![45u8] + padded(month as nat, 2) + seq![45u8] + padded(
            day as nat,
            2,
        ),
        encode_utf8(res.1@) == padded(h as nat, 2) + seq![58u8] + padded(m as nat, 2) + seq![58u8] + padded(sec as nat, 2)
            + seq![32u8, 43u8, 48u8, 48u8, 48u8, 48u8],
{
    let mut date: Vec<u8> = Vec::new();
    push_padded(&mut date, year, 4);
    date.push(45u8);
    push_padded(&mut date, month, 2);
    date.push(45u8);
    push_padded(&mut date, day, 2);
    let mut time: Vec<u8> = Vec::new();
    push_padded(&mut time, h, 2);
    time.push(58u8);
    push_padded(&mut time, m, 2);
    time.push(58u8);
    push_padded(&mut time, sec, 2);
    time.push(32u8);
    time.push(43u8);
    time.push(48u8);
    time.push(48u8);
    time.push(48u8);
    time.push(48u8);
    proof {
        assert(ascii_bytes(date@));
        assert(ascii_bytes(time@));
        lemma_ascii_valid_utf8(date@);
        lemma_ascii_valid_utf8(time@);
    }
    (string_of_utf8(date), string_of_utf8(time))
}

/// Splits a negative Unix time into a UTC date and time before 1970.
fn datetime_before_epoch(ts: i64) -> (res: (String, String))
    requires
        ts < 0,
        ts / 86400 >= -(days_since_year0(1970) as int),
    ensures
        encode_utf8(res.0@) == before_epoch_texts(ts as int).0,
        encode_utf8(res.1@) == before_epoch_texts(ts as int).1,
{
    proof {
        lemma_days_to_epoch();
    }
    assert(ts >= -62167219200) by (nonlinear_arith)
        requires
            ts / 86400 >= -719528,
    ;
    let a: u64 = (0 - ts) as u64;
    let back: u64 = (a + 86399) / 86400;
    let r: u64 = back * 86400 - a;
    assert(ts as int / 86400 == -(back as int) && ts as int % 86400 == r as int && r < 86400 && back >= 1) by (nonlinear_arith)
        requires
            a as int == -(ts as int),
            a >= 1,
            back as int == (a + 86399) / 86400,
            r as int == back * 86400 - a,
    ;
    let ghost d: int = ts as int / 86400;
    let mut year: u32 = 1970;
    let mut rem_days: i64 = 0 - (back as i64);
    assert(year_and_day_back(d, 1970) == year_and_day_back(rem_days as int, year as nat));
    while rem_days < 0
        invariant
            year <= 1970,
            rem_days >= -(days_since_year0(year as nat) as int),
            rem_days < days_in_year(year as nat),
            year_and_day_back(d, 1970) == year_and_day_back(rem_days as int, year as nat),
        decreases year,
    {
        assert(year > 0);
        let diy = year_days(year - 1);
        assert(days_since_year0(year as nat) == days_since_year0((year - 1) as nat) + diy);
        rem_days = rem_days + (diy as i64);
        year = year - 1;
    }
    let leap = is_leap(year);
    assert(year_and_day_back(d, 1970) == (year as nat, rem_days as nat));
    let (month, day) = month_of(rem_days as u64, leap);
    let h = r / 3600;
    let m = (r / 60) % 60;
    let sec = r % 60;
    date_time_strings(year as u64, month as u64, day, h, m, sec)
}

/// A Unix time as `YYYY-MM-DD HH:MM:SS +0000` in UTC; a negative time gives
/// a date before 1970.
pub open spec fn timestamp_text(ts: i64) -> Seq<u8> {
    let t = if ts >= 0 {
        datetime_texts(ts as nat)
    } else {
        before_epoch_texts(ts as int)
    };
    t.0 + seq![32u8] + t.1
}

/// Formats a Unix time in UTC.
pub fn format_timestamp(ts: i64) -> (res: String)
    requires
        timestamp_fits(ts),
    ensures
        encode_utf8(res@) == timestamp_text(ts),
{
    let (date, time) = if ts >= 0 {
        unix_to_datetime(ts as u64)
    } else {
        datetime_before_epoch(ts)
    };
    let mut v: Vec<u8> = Vec::new();
    v.extend_from_slice(date.as_str().as_bytes());
    v.push(32u8);
    v.extend_from_slice(time.as_str().as_bytes());
    proof {
        encode_utf8_valid_utf8(date@);
        encode_utf8_valid_utf8(time@);
        lemma_ascii_valid_utf8(seq![32u8]);
        valid_utf8_concat(encode_utf8(date@), seq![32u8]);
        valid_utf8_concat(encode_utf8(date@) + seq![32u8], encode_utf8(time@));
        assert(v@ =~= encode_utf8(date@) + seq![32u8] + encode_utf8(time@));
    }
    string_of_utf8(v)
}

/// The lines of a message, each indented by four spaces and ended by a
/// newline.
pub open spec fn indented_lines(ls: Seq<Seq<u8>>) -> Seq<u8>
    decreases ls.len(),
{
    if ls.len() == 0 {
        Seq::empty()
    } else {
        seq![32u8, 32u8, 32u8, 32u8] + ls[0] + seq![10u8] + indented_lines(ls.drop_first())
    }
}

/// Each line, indented by four spaces and followed by a newline, one after
/// another.
pub open spec fn indented_each(ls: Seq<Seq<u8>>) -> Seq<u8> {
    ls.map_values(|l: Seq<u8>| seq![32u8, 32u8, 32u8, 32u8] + l + seq![10u8]).flatten()
}

/// The history shows every line of the message, in order, each indented by
/// four spaces on a line of its own, and nothing else between the blank
/// line after the date and the closing blank line.
pub proof fn lemma_entry_shows_message(hash: Seq<u8>, author: Seq<u8>, time: i64, message: Seq<u8>)
    ensures
        commit_entry_text(hash, author, time, message) == seq![99u8, 111u8, 109u8, 109u8, 105u8, 116u8, 32u8] + hash
            + seq![10u8] + seq![65u8, 117u8, 116u8, 104u8, 111u8, 114u8, 58u8, 32u8] + author + seq![10u8]
            + seq![68u8, 97u8, 116u8, 101u8, 58u8, 32u8, 32u8, 32u8] + timestamp_text(time) + seq![10u8] + seq![10u8]
            + indented_each(text_lines(message)) + seq![10u8],
{
    lemma_indented_each(text_lines(message));
}

/// Indenting the lines one by one is indenting each of them.
proof fn lemma_indented_each(ls: Seq<Seq<u8>>)
    ensures
        indented_lines(ls) == indented_each(ls),
    decreases ls.len(),
{
    let f = |l: Seq<u8>| seq![32u8, 32u8, 32u8, 32u8] + l + seq![10u8];
    if ls.len() == 0 {
        assert(ls.map_values(f) =~= Seq::<Seq<u8>>::empty());
    } else {
        lemma_indented_each(ls.drop_first());
        let m = ls.map_values(f);
        assert(m.first() == f(ls[0]));
        assert(m.drop_first() =~= ls.drop_first().map_values(f));
        assert(indented_each(ls) == m.first() + m.drop_first().flatten());
    }
}

/// How the history shows a commit: its hash, author, date, a blank line,
/// the message indented, and a blank line.
pub open spec fn commit_entry_text(hash: Seq<u8>, author: Seq<u8>, time: i64, message: Seq<u8>) -> Seq<u8> {
    seq![99u8, 111u8, 109u8, 109u8, 105u8, 116u8, 32u8] + hash + seq![10u8]
        + seq![65u8, 117u8, 116u8, 104u8, 111u8, 114u8, 58u8, 32u8] + author + seq![10u8]
        + seq![68u8, 97u8, 116u8, 101u8, 58u8, 32u8, 32u8, 32u8] + timestamp_text(time) + seq![10u8]
        + seq![10u8] + indented_lines(text_lines(message)) + seq![10u8]
}

/// Appends valid UTF-8 to valid UTF-8.
fn append_valid(v: &mut Vec<u8>, b: &[u8])
    requires
        valid_utf8(old(v)@),
        valid_utf8(b@),
    ensures
        valid_utf8(final(v)@),
        final(v)@ == old(v)@ + b@,
{
    proof {
        valid_utf8_concat(old(v)@, b@);
    }
    v.extend_from_slice(b);
    assert(v@ =~= old(v)@ + b@);
}

/// Appends the lines of a message, each indented and ended by a newline.
#[verifier::rlimit(50)]
fn append_indented_lines(v: &mut Vec<u8>, m: &[u8])
    requires
        valid_utf8(old(v)@),
        valid_utf8(m@),
    ensures
        valid_utf8(final(v)@),
        final(v)@ == old(v)@ + indented_lines(text_lines(m@)),
{
    let n = m.len();
    let mut pos: usize = 0;
    let ghost start = v@;
    let indent: [u8; 4] = [32u8, 32u8, 32u8, 32u8];
    let nl: [u8; 1] = [10u8];
    proof {
        lemma_ascii_valid_utf8(indent@);
        lemma_ascii_valid_utf8(nl@);
    }
    assert(m@.skip(0) =~= m@);
    while pos < n
        invariant
            n == m@.len(),
            pos <= n,
            pos < n && pos > 0 ==> m@[pos - 1] == 10u8,
            valid_utf8(m@),
            valid_utf8(v@),
            valid_utf8(indent@),
            valid_utf8(nl@),
            indent@ == seq![32u8, 32u8, 32u8, 32u8],
            nl@ == seq![10u8],
            start + indented_lines(text_lines(m@)) == v@ + indented_lines(text_lines(m@.skip(pos as int))),
        decreases n - pos,
    {
        proof {
            lemma_text_lines_step(m@, pos as int);
        }
        let (lo, hi, next) = match find_byte(m, 10, pos) {
            Some(e) => {
                let hi = if e > pos && m[e - 1] == 13u8 {
                    e - 1
                } else {
                    e
                };
                assert(m@.subrange(pos as int, hi as int) =~= strip_cr(m@.subrange(pos as int, e as int)));
                assert(text_lines(m@.skip(pos as int)) == seq![m@.subrange(pos as int, hi as int)] + text_lines(
                    m@.skip(e + 1),
                ));
                (pos, hi, e + 1)
            },
            None => {
                assert(m@.subrange(pos as int, n as int) =~= m@.skip(pos as int));
                proof {
                    lemma_text_lines_empty(m@.skip(n as int));
                }
                assert(text_lines(m@.skip(pos as int)) =~= seq![m@.subrange(pos as int, n as int)] + text_lines(
                    m@.skip(n as int),
                ));
                (pos, n, n)
            },
        };
        proof {
            lemma_ascii_bounded_piece(m@, lo as int, hi as int);
        }
        assert(text_lines(m@.skip(pos as int)) == seq![m@.subrange(lo as int, hi as int)] + text_lines(
            m@.skip(next as int),
        ));
        let line = slice_copy(m, lo, hi);
        let ghost rest = text_lines(m@.skip(next as int));
        let ghost before = v@;
        append_valid(v, &indent);
        append_valid(v, line.as_slice());
        append_valid(v, &nl);
        proof {
            let ls = seq![line@] + rest;
            assert(ls[0] == line@);
            assert(ls.drop_first() =~= rest);
            assert(indented_lines(ls) == seq![32u8, 32u8, 32u8, 32u8] + line@ + seq![10u8] + indented_lines(rest));
            assert(v@ =~= before + seq![32u8, 32u8, 32u8, 32u8] + line@ + seq![10u8]);
            assert(before + indented_lines(ls) =~= v@ + indented_lines(rest));
        }
        pos = next;
    }
    proof {
        assert(m@.skip(pos as int).len() == 0);
        lemma_text_lines_empty(m@.skip(pos as int));
        assert(v@ + Seq::<u8>::empty() =~= v@);
    }
}

/// How the history shows a commit.
pub fn format_commit(commit: &CommitObject) -> (res: String)
    requires
        timestamp_fits(commit.author_time),
    ensures
        encode_utf8(res@) == commit_entry_text(
            encode_utf8(commit.hash@),
            encode_utf8(commit.author@),
            commit.author_time,
            encode_utf8(commit.message@),
        ),
{
    let mut v: Vec<u8> = Vec::new();
    proof {
        lemma_ascii_valid_utf8(v@);
    }
    let commit_w: [u8; 7] = [99u8, 111u8, 109u8, 109u8, 105u8, 116u8, 32u8];
    let author_w: [u8; 8] = [65u8, 117u8, 116u8, 104u8, 111u8, 114u8, 58u8, 32u8];
    let date_w: [u8; 8] = [68u8, 97u8, 116u8, 101u8, 58u8, 32u8, 32u8, 32u8];
    let nl: [u8; 1] = [10u8];
    proof {
        lemma_ascii_valid_utf8(commit_w@);
        lemma_ascii_valid_utf8(author_w@);
        lemma_ascii_valid_utf8(date_w@);
        lemma_ascii_valid_utf8(nl@);
        encode_utf8_valid_utf8(commit.hash@);
        encode_utf8_valid_utf8(commit.author@);
        encode_utf8_valid_utf8(commit.message@);
    }
    let date = format_timestamp(commit.author_time);
    proof {
        encode_utf8_valid_utf8(date@);
    }
    append_valid(&mut v, &commit_w);
    append_valid(&mut v, commit.hash.as_str().as_bytes());
    append_valid(&mut v, &nl);
    append_valid(&mut v, &author_w);
    append_valid(&mut v, commit.author.as_str().as_bytes());
    append_valid(&mut v, &nl);
    append_valid(&mut v, &date_w);
    append_valid(&mut v, date.as_str().as_bytes());
    append_valid(&mut v, &nl);
    append_valid(&mut v, &nl);
    append_indented_lines(&mut v, commit.message.as_str().as_bytes());
    append_valid(&mut v, &nl);
    assert(v@ =~= commit_entry_text(
        encode_utf8(commit.hash@),
        encode_utf8(commit.author@),
        commit.author_time,
        encode_utf8(commit.message@),
    ));
    string_of_utf8(v)
}

/// One step of the history: what to show for a commit, and the commit to
/// go on with (its first parent), if any.
#[derive(Debug)]
pub struct LogStep {
    pub text: String,
    pub next: Option<String>,
}

/// Walks the history one commit at a time, along first parents: shows the
/// commit and names the next one, none at a root commit.
pub fn log(commit: &CommitObject) -> (res: LogStep)
    requires
        timestamp_fits(commit.author_time),
    ensures
        encode_utf8(res.text@) == commit_entry_text(
            encode_utf8(commit.hash@),
            encode_utf8(commit.author@),
            commit.author_time,
            encode_utf8(commit.message@),
        ),
        match res.next {
            Some(p) => commit.parents@.len() > 0 && p@ == commit.parents@[0]@,
            None => commit.parents@.len() == 0,
        },
{
    let text = format_commit(commit);
    let next = if commit.parents.len() > 0 {
        Some(commit.parents[0].clone())
    } else {
        None
    };
    LogStep { text, next }
}


/// A file of the HEAD commit's tree: its path and blob hash in hex.
#[derive(Debug)]
pub struct HeadFile {
    pub path: String,
    pub hash: String,
}

/// A file found in the working directory: its path and modification time
/// in nanoseconds.
#[derive(Debug)]
pub struct WorkFile {
    pub path: String,
    pub mtime: u64,
}

/// The blob hash HEAD holds for a path, if it holds the path.
pub open spec fn head_hash(head: Seq<HeadFile>, path: Seq<char>) -> Option<Seq<char>>
    decreases head.len(),
{
    if head.len() == 0 {
        None
    } else if head[0].path@ == path {
        Some(head[0].hash@)
    } else {
        head_hash(head.drop_first(), path)
    }
}

/// The modification time of a path in the working directory, if it is there.
pub open spec fn work_mtime(wd: Seq<WorkFile>, path: Seq<char>) -> Option<u64>
    decreases wd.len(),
{
    if wd.len() == 0 {
        None
    } else if wd[0].path@ == path {
        Some(wd[0].mtime)
    } else {
        work_mtime(wd.drop_first(), path)
    }
}

/// The index holds the path.
pub open spec fn index_has(s: Seq<EntryView>, path: Seq<char>) -> bool {
    exists|i: int| 0 <= i < s.len() && (#[trigger] s[i]).path == path
}

/// Staged new files: index paths that HEAD lacks, in index order.
pub open spec fn staged_new_spec(s: Seq<EntryView>, head: Seq<HeadFile>) -> Seq<Seq<char>>
    decreases s.len(),
{
    if s.len() == 0 {
        Seq::empty()
    } else {
        let r = staged_new_spec(s.drop_last(), head);
        if head_hash(head, s.last().path) is None {
            r.push(s.last().path)
        } else {
            r
        }
    }
}

/// Staged changes: index paths whose blob differs from HEAD's, in index order.
pub open spec fn staged_modified_spec(s: Seq<EntryView>, head: Seq<HeadFile>) -> Seq<Seq<char>>
    decreases s.len(),
{
    if s.len() == 0 {
        Seq::empty()
    } else {
        let r = staged_modified_spec(s.drop_last(), head);
        match head_hash(head, s.last().path) {
            Some(h) => if h != hex_lower(s.last().sha1) {
                r.push(s.last().path)
            } else {
                r
            },
            None => r,
        }
    }
}

/// Staged deletions: HEAD paths that the index lacks, in HEAD order.
pub open spec fn staged_deleted_spec(head: Seq<HeadFile>, s: Seq<EntryView>) -> Seq<Seq<char>>
    decreases head.len(),
{
    if head.len() == 0 {
        Seq::empty()
    } else {
        let r = staged_deleted_spec(head.drop_last(), s);
        if !index_has(s, head.last().path@) {
            r.push(head.last().path@)
        } else {
            r
        }
    }
}

/// Unstaged deletions: index paths missing from the working directory.
pub open spec fn unstaged_deleted_spec(s: Seq<EntryView>, wd: Seq<WorkFile>) -> Seq<Seq<char>>
    decreases s.len(),
{
    if s.len() == 0 {
        Seq::empty()
    } else {
        let r = unstaged_deleted_spec(s.drop_last(), wd);
        if work_mtime(wd, s.last().path) is None {
            r.push(s.last().path)
        } else {
            r
        }
    }
}

/// Unstaged changes: index paths whose file has another modification time
/// and whose content, rehashed, differs (`differs` says which, entry by
/// entry).
pub open spec fn unstaged_modified_spec(s: Seq<EntryView>, wd: Seq<WorkFile>, differs: Seq<bool>) -> Seq<Seq<char>>
    decreases s.len(),
{
    if s.len() == 0 {
        Seq::empty()
    } else {
        let r = unstaged_modified_spec(s.drop_last(), wd, differs);
        match work_mtime(wd, s.last().path) {
            Some(m) => if m != s.last().mtime && differs[s.len() - 1] {
                r.push(s.last().path)
            } else {
                r
            },
            None => r,
        }
    }
}

/// Untracked files: working-directory paths that the index lacks.
pub open spec fn untracked_spec(wd: Seq<WorkFile>, s: Seq<EntryView>) -> Seq<Seq<char>>
    decreases wd.len(),
{
    if wd.len() == 0 {
        Seq::empty()
    } else {
        let r = untracked_spec(wd.drop_last(), s);
        if !index_has(s, wd.last().path@) {
            r.push(wd.last().path@)
        } else {
            r
        }
    }
}

/// The index entries whose file has to be read again: present in the
/// working directory with another modification time.
pub open spec fn rehash_spec(s: Seq<EntryView>, wd: Seq<WorkFile>) -> Seq<bool> {
    Seq::new(s.len(), |i: int| work_mtime(wd, s[i].path) matches Some(m) && m != s[i].mtime)
}

/// The views of texts.
pub open spec fn texts_view(v: Seq<String>) -> Seq<Seq<char>> {
    v.map_values(|x: String| x@)
}

/// The three comparisons of the status report.
#[derive(Debug)]
pub struct StatusReport {
    pub staged_new: Vec<String>,
    pub staged_modified: Vec<String>,
    pub staged_deleted: Vec<String>,
    pub unstaged_modified: Vec<String>,
    pub unstaged_deleted: Vec<String>,
    pub untracked: Vec<String>,
}

/// The HEAD blob hash for a path.
fn find_head(head: &Vec<HeadFile>, path: &String) -> (res: Option<usize>)
    ensures
        match res {
            Some(i) => i < head@.len() && head_hash(head@, path@) == Some(head@[i as int].hash@),
            None => head_hash(head@, path@) is None,
        },
{
    let mut i: usize = 0;
    assert(head@.skip(0) =~= head@);
    while i < head.len()
        invariant
            i <= head@.len(),
            head_hash(head@, path@) == head_hash(head@.skip(i as int), path@),
        decreases head.len() - i,
    {
        assert(head@.skip(i as int)[0] == head@[i as int]);
        if head[i].path == *path {
            return Some(i);
        }
        assert(head@.skip(i as int).drop_first() =~= head@.skip(i + 1));
        i = i + 1;
    }
    None
}

/// The working-directory modification time for a path.
fn find_work(wd: &Vec<WorkFile>, path: &String) -> (res: Option<u64>)
    ensures
        res == work_mtime(wd@, path@),
{
    let mut i: usize = 0;
    assert(wd@.skip(0) =~= wd@);
    while i < wd.len()
        invariant
            i <= wd@.len(),
            work_mtime(wd@, path@) == work_mtime(wd@.skip(i as int), path@),
        decreases wd.len() - i,
    {
        assert(wd@.skip(i as int)[0] == wd@[i as int]);
        if wd[i].path == *path {
            return Some(wd[i].mtime);
        }
        assert(wd@.skip(i as int).drop_first() =~= wd@.skip(i + 1));
        i = i + 1;
    }
    None
}

/// Whether the index holds a path.
fn index_contains(entries: &Vec<IndexEntry>, path: &String) -> (res: bool)
    ensures
        res == index_has(entries@.map_values(|e: IndexEntry| e@), path@),
{
    let ghost s = entries@.map_values(|e: IndexEntry| e@);
    let mut i: usize = 0;
    while i < entries.len()
        invariant
            s == entries@.map_values(|e: IndexEntry| e@),
            i <= entries@.len(),
            forall|j: int| 0 <= j < i ==> (#[trigger] s[j]).path != path@,
        decreases entries.len() - i,
    {
        assert(s[i as int] == entries@[i as int]@);
        if entries[i].path == *path {
            return true;
        }
        i = i + 1;
    }
    false
}

/// Which index entries have to be read again to compare them with the
/// working directory.
pub fn needs_rehash(index: &Index, workdir: &Vec<WorkFile>) -> (res: Vec<bool>)
    ensures
        res@ == rehash_spec(index@, workdir@),
{
    let entries = index.entries();
    let ghost s = index@;
    let mut out: Vec<bool> = Vec::new();
    let mut i: usize = 0;
    while i < entries.len()
        invariant
            s == entries@.map_values(|e: IndexEntry| e@),
            i <= entries@.len(),
            out@ =~= rehash_spec(s, workdir@).take(i as int),
        decreases entries.len() - i,
    {
        let e = &entries[i];
        assert(s[i as int] == e@);
        let r = match find_work(workdir, &e.path) {
            Some(m) => m != e.mtime,
            None => false,
        };
        out.push(r);
        i = i + 1;
    }
    out
}

/// Whether a file differs from the blob a staged hash names: a file that
/// could not be read (`None`) counts as changed, one that was read differs
/// when its blob hashes to another name.
pub fn file_sha1_differs(content: Option<&[u8]>, index_sha1: &[u8; 20]) -> (res: bool)
    ensures
        match content {
            None => res,
            Some(c) => res == (sha1(object_bytes(seq![98u8, 108u8, 111u8, 98u8], c@)) != index_sha1@),
        },
{
    let bytes = match content {
        Some(c) => c,
        None => return true,
    };
    let mut raw: Vec<u8> = Vec::new();
    raw.push(98u8);
    raw.push(108u8);
    raw.push(111u8);
    raw.push(98u8);
    raw.push(32u8);
    let len = decimal_bytes(bytes.len() as u64);
    raw.extend_from_slice(len.as_slice());
    raw.push(0u8);
    raw.extend_from_slice(bytes);
    assert(raw@ =~= object_bytes(seq![98u8, 108u8, 111u8, 98u8], bytes@));
    let digest = sha1_digest(raw.as_slice());
    let mut i: usize = 0;
    while i < 20
        invariant
            i <= 20,
            content == Some(bytes),
            digest@ == sha1(object_bytes(seq![98u8, 108u8, 111u8, 98u8], bytes@)),
            digest@.len() == 20,
            index_sha1@.len() == 20,
            forall|j: int| 0 <= j < i ==> digest@[j] == index_sha1@[j],
        decreases 20 - i,
    {
        if digest[i] != index_sha1[i] {
            return true;
        }
        i = i + 1;
    }
    assert(digest@ =~= index_sha1@);
    false
}

/// HEAD's files in strictly increasing path order, as a map keyed by path
/// lists them.
pub open spec fn head_sorted(head: Seq<HeadFile>) -> bool {
    forall|i: int, j: int|
        0 <= i < j < head.len() ==> crate::codec::lex_lt(encode_utf8(#[trigger] head[i].path@), encode_utf8(#[trigger] head[j].path@))
}

/// The working directory's files in strictly increasing path order, as a
/// map keyed by path lists them.
pub open spec fn workdir_sorted(wd: Seq<WorkFile>) -> bool {
    forall|i: int, j: int|
        0 <= i < j < wd.len() ==> crate::codec::lex_lt(encode_utf8(#[trigger] wd[i].path@), encode_utf8(#[trigger] wd[j].path@))
}

/// Compares HEAD, the index and the working directory, each listing its
/// files in increasing path order. `differs` says, for each index entry
/// whose file has another modification time, whether its content hashes to
/// another blob.
pub fn status(index: &Index, head: &Vec<HeadFile>, workdir: &Vec<WorkFile>, differs: &Vec<bool>) -> (res: StatusReport)
    requires
        head_sorted(head@),
        workdir_sorted(workdir@),
        differs@.len() == index@.len(),
    ensures
        texts_view(res.staged_new@) == staged_new_spec(index@, head@),
        texts_view(res.staged_modified@) == staged_modified_spec(index@, head@),
        texts_view(res.staged_deleted@) == staged_deleted_spec(head@, index@),
        texts_view(res.unstaged_modified@) == unstaged_modified_spec(index@, workdir@, differs@),
        texts_view(res.unstaged_deleted@) == unstaged_deleted_spec(index@, workdir@),
        texts_view(res.untracked@) == untracked_spec(workdir@, index@),
        forall|j: int|
            0 <= j < workdir@.len() ==> (texts_view(res.untracked@).contains(#[trigger] workdir@[j].path@) <==> !index_has(
                index@,
                workdir@[j].path@,
            )),
{
    let entries = index.entries();
    let ghost s = index@;
    let mut staged_new: Vec<String> = Vec::new();
    let mut staged_modified: Vec<String> = Vec::new();
    let mut unstaged_modified: Vec<String> = Vec::new();
    let mut unstaged_deleted: Vec<String> = Vec::new();
    let mut i: usize = 0;
    assert(s.take(0) =~= Seq::<EntryView>::empty());
    while i < entries.len()
        invariant
            s == entries@.map_values(|e: IndexEntry| e@),
            s == index@,
            differs@.len() == s.len(),
            i <= entries@.len(),
            texts_view(staged_new@) == staged_new_spec(s.take(i as int), head@),
            texts_view(staged_modified@) == staged_modified_spec(s.take(i as int), head@),
            texts_view(unstaged_modified@) == unstaged_modified_spec(s.take(i as int), workdir@, differs@),
            texts_view(unstaged_deleted@) == unstaged_deleted_spec(s.take(i as int), workdir@),
        decreases entries.len() - i,
    {
        let e = &entries[i];
        assert(s[i as int] == e@);
        let ghost t = s.take(i + 1);
        assert(t.drop_last() =~= s.take(i as int));
        assert(t.last() == e@);
        assert(t.len() - 1 == i);
        match find_head(head, &e.path) {
            None => {
                staged_new.push(e.path.clone());
            },
            Some(k) => {
                let h = hex_encode(&e.sha1);
                if !(head[k].hash == h) {
                    staged_modified.push(e.path.clone());
                }
            },
        }
        match find_work(workdir, &e.path) {
            None => {
                unstaged_deleted.push(e.path.clone());
            },
            Some(m) => {
                if m != e.mtime && differs[i] {
                    unstaged_modified.push(e.path.clone());
                }
            },
        }
        assert(texts_view(staged_new@) =~= staged_new_spec(t, head@));
        assert(texts_view(staged_modified@) =~= staged_modified_spec(t, head@));
        assert(texts_view(unstaged_modified@) =~= unstaged_modified_spec(t, workdir@, differs@));
        assert(texts_view(unstaged_deleted@) =~= unstaged_deleted_spec(t, workdir@));
        i = i + 1;
    }
    assert(s.take(i as int) =~= s);
    let mut staged_deleted: Vec<String> = Vec::new();
    let mut j: usize = 0;
    assert(head@.take(0) =~= Seq::<HeadFile>::empty());
    while j < head.len()
        invariant
            s == entries@.map_values(|e: IndexEntry| e@),
            j <= head@.len(),
            texts_view(staged_deleted@) == staged_deleted_spec(head@.take(j as int), s),
        decreases head.len() - j,
    {
        let ghost t = head@.take(j + 1);
        assert(t.drop_last() =~= head@.take(j as int));
        assert(t.last() == head@[j as int]);
        if !index_contains(entries, &head[j].path) {
            staged_deleted.push(head[j].path.clone());
        }
        assert(texts_view(staged_deleted@) =~= staged_deleted_spec(t, s));
        j = j + 1;
    }
    assert(head@.take(j as int) =~= head@);
    let mut untracked: Vec<String> = Vec::new();
    let mut w: usize = 0;
    assert(workdir@.take(0) =~= Seq::<WorkFile>::empty());
    while w < workdir.len()
        invariant
            s == entries@.map_values(|e: IndexEntry| e@),
            w <= workdir@.len(),
            texts_view(untracked@) == untracked_spec(workdir@.take(w as int), s),
        decreases workdir.len() - w,
    {
        let ghost t = workdir@.take(w + 1);
        assert(t.drop_last() =~= workdir@.take(w as int));
        assert(t.last() == workdir@[w as int]);
        if !index_contains(entries, &workdir[w].path) {
            untracked.push(workdir[w].path.clone());
        }
        assert(texts_view(untracked@) =~= untracked_spec(t, s));
        w = w + 1;
    }
    assert(workdir@.take(w as int) =~= workdir@);
    proof {
        lemma_untracked_exactly(workdir@, s);
    }
    StatusReport { staged_new, staged_modified, staged_deleted, unstaged_modified, unstaged_deleted, untracked }
}


/// The paths of the index entries, in index order, whose position meets
/// `c`.
pub open spec fn paths_where(s: Seq<EntryView>, c: spec_fn(int) -> bool) -> Seq<Seq<char>>
    decreases s.len(),
{
    if s.len() == 0 {
        Seq::empty()
    } else {
        let r = paths_where(s.drop_last(), c);
        if c(s.len() - 1) {
            r.push(s.last().path)
        } else {
            r
        }
    }
}

/// In an index with one entry per path, an entry's path is among those
/// whose position meets `c` exactly when its own position does, and no
/// other path is.
proof fn lemma_paths_where(s: Seq<EntryView>, c: spec_fn(int) -> bool)
    requires
        sorted_by_path(s),
    ensures
        forall|i: int| 0 <= i < s.len() ==> (paths_where(s, c).contains(#[trigger] s[i].path) <==> c(i)),
        forall|x: Seq<char>| #[trigger] paths_where(s, c).contains(x) ==> exists|i: int| 0 <= i < s.len() && s[i].path == x && c(i),
    decreases s.len(),
{
    if s.len() > 0 {
        let w = s.drop_last();
        let n = s.len() - 1;
        assert(sorted_by_path(w)) by {
            assert forall|i: int, j: int| 0 <= i < j < w.len() implies crate::codec::lex_lt(entry_key(w[i]), entry_key(w[j])) by {
                assert(w[i] == s[i] && w[j] == s[j]);
            }
        }
        lemma_paths_where(w, c);
        let r = paths_where(w, c);
        let u = paths_where(s, c);
        assert(s.last() == s[n]);
        assert forall|x: Seq<char>| #[trigger] u.contains(x) implies exists|i: int| 0 <= i < s.len() && s[i].path == x && c(i) by {
            let k = choose|k: int| 0 <= k < u.len() && u[k] == x;
            if k < r.len() {
                assert(u[k] == r[k]);
                assert(r.contains(x));
                let i = choose|i: int| 0 <= i < w.len() && w[i].path == x && c(i);
                assert(s[i] == w[i]);
            } else {
                assert(u[k] == s[n].path);
            }
        }
        assert forall|i: int| 0 <= i < s.len() implies (u.contains(#[trigger] s[i].path) <==> c(i)) by {
            if c(i) {
                if i < n {
                    assert(w[i] == s[i]);
                    assert(r.contains(w[i].path));
                    let k = choose|k: int| 0 <= k < r.len() && r[k] == w[i].path;
                    assert(u[k] == r[k]);
                } else {
                    assert(u[u.len() - 1] == s[n].path);
                }
            }
            if u.contains(s[i].path) {
                let i2 = choose|i2: int| 0 <= i2 < s.len() && s[i2].path == s[i].path && c(i2);
                if i2 != i {
                    lemma_sorted_paths_distinct(s, i, i2);
                }
            }
        }
    }
}

/// HEAD holds no file at `path` exactly when looking it up finds none; a
/// file it finds is one HEAD holds at that path.
proof fn lemma_head_hash_char(head: Seq<HeadFile>, path: Seq<char>)
    ensures
        head_hash(head, path) is None <==> forall|j: int| 0 <= j < head.len() ==> (#[trigger] head[j]).path@ != path,
        head_hash(head, path) matches Some(h) ==> exists|j: int| 0 <= j < head.len() && head[j].path@ == path && head[j].hash@ == h,
    decreases head.len(),
{
    if head.len() > 0 {
        let t = head.drop_first();
        lemma_head_hash_char(t, path);
        assert forall|j: int| 0 <= j < t.len() implies #[trigger] t[j] == head[j + 1] by {}
        if head[0].path@ != path {
            if let Some(h) = head_hash(t, path) {
                let j = choose|j: int| 0 <= j < t.len() && t[j].path@ == path && t[j].hash@ == h;
                assert(head[j + 1] == t[j]);
            }
            if exists|j: int| 0 <= j < head.len() && (#[trigger] head[j]).path@ == path {
                let j = choose|j: int| 0 <= j < head.len() && (#[trigger] head[j]).path@ == path;
                assert(t[j - 1] == head[j]);
            }
        }
    }
}

/// The working directory holds no file at `path` exactly when looking it
/// up finds none; a time it finds is that of a file at that path.
proof fn lemma_work_mtime_char(wd: Seq<WorkFile>, path: Seq<char>)
    ensures
        work_mtime(wd, path) is None <==> forall|j: int| 0 <= j < wd.len() ==> (#[trigger] wd[j]).path@ != path,
        work_mtime(wd, path) matches Some(m) ==> exists|j: int| 0 <= j < wd.len() && wd[j].path@ == path && wd[j].mtime == m,
    decreases wd.len(),
{
    if wd.len() > 0 {
        let t = wd.drop_first();
        lemma_work_mtime_char(t, path);
        assert forall|j: int| 0 <= j < t.len() implies #[trigger] t[j] == wd[j + 1] by {}
        if wd[0].path@ != path {
            if let Some(m) = work_mtime(t, path) {
                let j = choose|j: int| 0 <= j < t.len() && t[j].path@ == path && t[j].mtime == m;
                assert(wd[j + 1] == t[j]);
            }
            if exists|j: int| 0 <= j < wd.len() && (#[trigger] wd[j]).path@ == path {
                let j = choose|j: int| 0 <= j < wd.len() && (#[trigger] wd[j]).path@ == path;
                assert(t[j - 1] == wd[j]);
            }
        }
    }
}

/// Each list of the report drawn from the index is the paths of the
/// entries whose position meets its test.
proof fn lemma_lists_as_paths_where(s: Seq<EntryView>, head: Seq<HeadFile>, wd: Seq<WorkFile>, differs: Seq<bool>, n: int)
    requires
        0 <= n <= s.len(),
    ensures
        staged_new_spec(s.take(n), head) == paths_where(s.take(n), |i: int| head_hash(head, s[i].path) is None),
        staged_modified_spec(s.take(n), head) == paths_where(
            s.take(n),
            |i: int| head_hash(head, s[i].path) matches Some(h) && h != hex_lower(s[i].sha1),
        ),
        unstaged_deleted_spec(s.take(n), wd) == paths_where(s.take(n), |i: int| work_mtime(wd, s[i].path) is None),
        unstaged_modified_spec(s.take(n), wd, differs) == paths_where(
            s.take(n),
            |i: int| work_mtime(wd, s[i].path) matches Some(m) && m != s[i].mtime && differs[i],
        ),
    decreases n,
{
    if n > 0 {
        lemma_lists_as_paths_where(s, head, wd, differs, n - 1);
        let t = s.take(n);
        assert(t.drop_last() =~= s.take(n - 1));
        assert(t.last() == s[n - 1]);
    } else {
        assert(s.take(0).len() == 0);
    }
}

/// Paths in strictly increasing order are distinct.
proof fn lemma_lex_distinct(a: Seq<u8>, b: Seq<u8>)
    requires
        crate::codec::lex_lt(a, b),
    ensures
        a != b,
{
    lemma_lex_irreflexive(a);
}

/// What each list of the status report drawn from the index holds, in
/// terms of HEAD's and the working directory's files: a staged file is
/// - a new file exactly when HEAD holds no file at its path;
/// - staged as modified exactly when HEAD holds a file at its path with
///   another blob;
/// - deleted from the working directory exactly when that holds no file at
///   its path;
/// - modified there exactly when that holds a file at its path with another
///   time and another content (`differs`);
/// and no list holds any path but those.
pub proof fn lemma_status_lists(s: Seq<EntryView>, head: Seq<HeadFile>, wd: Seq<WorkFile>, differs: Seq<bool>)
    requires
        sorted_by_path(s),
        head_sorted(head),
        workdir_sorted(wd),
        differs.len() == s.len(),
    ensures
        forall|i: int|
            0 <= i < s.len() ==> (staged_new_spec(s, head).contains(#[trigger] s[i].path) <==> forall|j: int|
                0 <= j < head.len() ==> head[j].path@ != s[i].path),
        forall|i: int|
            0 <= i < s.len() ==> (staged_modified_spec(s, head).contains(#[trigger] s[i].path) <==> exists|j: int|
                0 <= j < head.len() && head[j].path@ == s[i].path && head[j].hash@ != hex_lower(s[i].sha1)),
        forall|i: int|
            0 <= i < s.len() ==> (unstaged_deleted_spec(s, wd).contains(#[trigger] s[i].path) <==> forall|j: int|
                0 <= j < wd.len() ==> wd[j].path@ != s[i].path),
        forall|i: int|
            0 <= i < s.len() ==> (unstaged_modified_spec(s, wd, differs).contains(#[trigger] s[i].path) <==> exists|j: int|
                0 <= j < wd.len() && wd[j].path@ == s[i].path && wd[j].mtime != s[i].mtime && differs[i]),
        forall|x: Seq<char>|
            #[trigger] staged_new_spec(s, head).contains(x) ==> exists|i: int| 0 <= i < s.len() && s[i].path == x,
        forall|x: Seq<char>|
            #[trigger] staged_modified_spec(s, head).contains(x) ==> exists|i: int| 0 <= i < s.len() && s[i].path == x,
        forall|x: Seq<char>|
            #[trigger] unstaged_deleted_spec(s, wd).contains(x) ==> exists|i: int| 0 <= i < s.len() && s[i].path == x,
        forall|x: Seq<char>|
            #[trigger] unstaged_modified_spec(s, wd, differs).contains(x) ==> exists|i: int| 0 <= i < s.len() && s[i].path == x,
{
    lemma_lists_as_paths_where(s, head, wd, differs, s.len() as int);
    assert(s.take(s.len() as int) =~= s);
    let c1 = |i: int| head_hash(head, s[i].path) is None;
    let c2 = |i: int| head_hash(head, s[i].path) matches Some(h) && h != hex_lower(s[i].sha1);
    let c3 = |i: int| work_mtime(wd, s[i].path) is None;
    let c4 = |i: int| work_mtime(wd, s[i].path) matches Some(m) && m != s[i].mtime && differs[i];
    lemma_paths_where(s, c1);
    lemma_paths_where(s, c2);
    lemma_paths_where(s, c3);
    lemma_paths_where(s, c4);
    assert forall|i: int| 0 <= i < s.len() implies (staged_new_spec(s, head).contains(#[trigger] s[i].path) <==> forall|j: int|
        0 <= j < head.len() ==> head[j].path@ != s[i].path) by {
        lemma_head_hash_char(head, s[i].path);
    }
    assert forall|i: int| 0 <= i < s.len() implies (staged_modified_spec(s, head).contains(#[trigger] s[i].path) <==> exists|j: int|
        0 <= j < head.len() && head[j].path@ == s[i].path && head[j].hash@ != hex_lower(s[i].sha1)) by {
        lemma_head_hash_char(head, s[i].path);
        if exists|j: int| 0 <= j < head.len() && head[j].path@ == s[i].path && head[j].hash@ != hex_lower(s[i].sha1) {
            let j = choose|j: int| 0 <= j < head.len() && head[j].path@ == s[i].path && head[j].hash@ != hex_lower(s[i].sha1);
            assert(head_hash(head, s[i].path) is Some);
            let h = head_hash(head, s[i].path)->Some_0;
            let j2 = choose|j2: int| 0 <= j2 < head.len() && head[j2].path@ == s[i].path && head[j2].hash@ == h;
            if j2 < j {
                lemma_lex_distinct(encode_utf8(head[j2].path@), encode_utf8(head[j].path@));
            } else if j < j2 {
                lemma_lex_distinct(encode_utf8(head[j].path@), encode_utf8(head[j2].path@));
            }
            assert(c2(i));
        }
    }
    assert forall|i: int| 0 <= i < s.len() implies (unstaged_deleted_spec(s, wd).contains(#[trigger] s[i].path) <==> forall|j: int|
        0 <= j < wd.len() ==> wd[j].path@ != s[i].path) by {
        lemma_work_mtime_char(wd, s[i].path);
    }
    assert forall|i: int| 0 <= i < s.len() implies (unstaged_modified_spec(s, wd, differs).contains(#[trigger] s[i].path) <==> exists|j: int|
        0 <= j < wd.len() && wd[j].path@ == s[i].path && wd[j].mtime != s[i].mtime && differs[i]) by {
        lemma_work_mtime_char(wd, s[i].path);
        if exists|j: int| 0 <= j < wd.len() && wd[j].path@ == s[i].path && wd[j].mtime != s[i].mtime && differs[i] {
            let j = choose|j: int| 0 <= j < wd.len() && wd[j].path@ == s[i].path && wd[j].mtime != s[i].mtime && differs[i];
            assert(work_mtime(wd, s[i].path) is Some);
            let m = work_mtime(wd, s[i].path)->Some_0;
            let j2 = choose|j2: int| 0 <= j2 < wd.len() && wd[j2].path@ == s[i].path && wd[j2].mtime == m;
            if j2 < j {
                lemma_lex_distinct(encode_utf8(wd[j2].path@), encode_utf8(wd[j].path@));
            } else if j < j2 {
                lemma_lex_distinct(encode_utf8(wd[j].path@), encode_utf8(wd[j2].path@));
            }
            assert(c4(i));
        }
    }
}

/// A HEAD path is reported as a staged deletion exactly when the index
/// holds no entry for it, and nothing else is reported so.
pub proof fn lemma_staged_deleted_exactly(head: Seq<HeadFile>, s: Seq<EntryView>)
    ensures
        forall|j: int|
            0 <= j < head.len() ==> (staged_deleted_spec(head, s).contains(#[trigger] head[j].path@) <==> !index_has(
                s,
                head[j].path@,
            )),
        forall|x: Seq<char>|
            #[trigger] staged_deleted_spec(head, s).contains(x) ==> !index_has(s, x) && exists|j: int|
                0 <= j < head.len() && head[j].path@ == x,
    decreases head.len(),
{
    if head.len() > 0 {
        let w = head.drop_last();
        let n = head.len() - 1;
        lemma_staged_deleted_exactly(w, s);
        let r = staged_deleted_spec(w, s);
        let u = staged_deleted_spec(head, s);
        assert(head.last() == head[n]);
        assert forall|x: Seq<char>| #[trigger] u.contains(x) implies !index_has(s, x) && exists|j: int|
            0 <= j < head.len() && head[j].path@ == x by {
            let k = choose|k: int| 0 <= k < u.len() && u[k] == x;
            if k < r.len() {
                assert(r[k] == u[k]);
                assert(r.contains(x));
                let j = choose|j: int| 0 <= j < w.len() && w[j].path@ == x;
                assert(head[j] == w[j]);
            } else {
                assert(u[k] == head[n].path@);
            }
        }
        assert forall|j: int| 0 <= j < head.len() implies (u.contains(#[trigger] head[j].path@) <==> !index_has(s, head[j].path@)) by {
            if !index_has(s, head[j].path@) {
                if j < n {
                    assert(w[j] == head[j]);
                    assert(r.contains(w[j].path@));
                    let k = choose|k: int| 0 <= k < r.len() && r[k] == w[j].path@;
                    assert(u[k] == r[k]);
                } else {
                    assert(u[u.len() - 1] == head[n].path@);
                }
            }
        }
    }
}

/// A working-directory path is reported untracked exactly when the index
/// holds no entry for it, and nothing else is reported untracked.
pub proof fn lemma_untracked_exactly(wd: Seq<WorkFile>, s: Seq<EntryView>)
    ensures
        forall|j: int|
            0 <= j < wd.len() ==> (untracked_spec(wd, s).contains(#[trigger] wd[j].path@) <==> !index_has(s, wd[j].path@)),
        forall|x: Seq<char>|
            #[trigger] untracked_spec(wd, s).contains(x) ==> !index_has(s, x) && exists|j: int| 0 <= j < wd.len() && wd[j].path@ == x,
    decreases wd.len(),
{
    if wd.len() > 0 {
        let w = wd.drop_last();
        let n = wd.len() - 1;
        lemma_untracked_exactly(w, s);
        let r = untracked_spec(w, s);
        let u = untracked_spec(wd, s);
        assert(wd.last() == wd[n]);
        assert forall|x: Seq<char>| #[trigger] u.contains(x) implies !index_has(s, x) && exists|j: int| 0 <= j < wd.len() && wd[j].path@ == x by {
            let k = choose|k: int| 0 <= k < u.len() && u[k] == x;
            if k < r.len() {
                assert(r[k] == u[k]);
                assert(r.contains(x));
                let j = choose|j: int| 0 <= j < w.len() && w[j].path@ == x;
                assert(wd[j] == w[j]);
            } else {
                assert(u[k] == wd[n].path@);
            }
        }
        assert forall|j: int| 0 <= j < wd.len() implies (u.contains(#[trigger] wd[j].path@) <==> !index_has(s, wd[j].path@)) by {
            if !index_has(s, wd[j].path@) {
                if j < n {
                    assert(w[j] == wd[j]);
                    assert(r.contains(w[j].path@));
                    let k = choose|k: int| 0 <= k < r.len() && r[k] == w[j].path@;
                    assert(u[k] == r[k]);
                } else {
                    assert(u[u.len() - 1] == wd[n].path@);
                }
            }
        }
    }
}

/// HEAD lists exactly the index's files, in index order, each with the
/// blob the index stages for it.
pub open spec fn head_matches_index(head: Seq<HeadFile>, s: Seq<EntryView>) -> bool {
    &&& head.len() == s.len()
    &&& forall|i: int| 0 <= i < s.len() ==> (#[trigger] head[i]).path@ == s[i].path && head[i].hash@ == hex_lower(s[i].sha1)
}

/// The working directory lists exactly the index's files, in index order.
pub open spec fn workdir_lists_index(wd: Seq<WorkFile>, s: Seq<EntryView>) -> bool {
    &&& wd.len() == s.len()
    &&& forall|i: int| 0 <= i < s.len() ==> (#[trigger] wd[i]).path@ == s[i].path
}

/// In path order no path occurs twice.
proof fn lemma_sorted_paths_distinct(s: Seq<EntryView>, i: int, j: int)
    requires
        sorted_by_path(s),
        0 <= i < s.len(),
        0 <= j < s.len(),
        i != j,
    ensures
        s[i].path != s[j].path,
{
    if s[i].path == s[j].path {
        lemma_lex_irreflexive(entry_key(s[i]));
        if i < j {
            assert(crate::codec::lex_lt(entry_key(s[i]), entry_key(s[j])));
        } else {
            assert(crate::codec::lex_lt(entry_key(s[j]), entry_key(s[i])));
        }
    }
}

/// A HEAD file found where no earlier one has its path.
proof fn lemma_head_hash_at(head: Seq<HeadFile>, i: int)
    requires
        0 <= i < head.len(),
        forall|j: int| 0 <= j < i ==> (#[trigger] head[j]).path@ != head[i].path@,
    ensures
        head_hash(head, head[i].path@) == Some(head[i].hash@),
    decreases i,
{
    if i > 0 {
        let t = head.drop_first();
        assert forall|j: int| 0 <= j < i - 1 implies (#[trigger] t[j]).path@ != t[i - 1].path@ by {
            assert(t[j] == head[j + 1]);
        }
        lemma_head_hash_at(t, i - 1);
        assert(head[0].path@ != head[i].path@);
    }
}

/// A working file found where no earlier one has its path.
proof fn lemma_work_mtime_at(wd: Seq<WorkFile>, i: int)
    requires
        0 <= i < wd.len(),
        forall|j: int| 0 <= j < i ==> (#[trigger] wd[j]).path@ != wd[i].path@,
    ensures
        work_mtime(wd, wd[i].path@) == Some(wd[i].mtime),
    decreases i,
{
    if i > 0 {
        let t = wd.drop_first();
        assert forall|j: int| 0 <= j < i - 1 implies (#[trigger] t[j]).path@ != t[i - 1].path@ by {
            assert(t[j] == wd[j + 1]);
        }
        lemma_work_mtime_at(t, i - 1);
        assert(wd[0].path@ != wd[i].path@);
    }
}

/// Index paths all found in HEAD with the staged blob: nothing new, nothing
/// modified.
proof fn lemma_staged_none(s: Seq<EntryView>, head: Seq<HeadFile>)
    requires
        forall|i: int| 0 <= i < s.len() ==> head_hash(head, (#[trigger] s[i]).path) == Some(hex_lower(s[i].sha1)),
    ensures
        staged_new_spec(s, head).len() == 0,
        staged_modified_spec(s, head).len() == 0,
    decreases s.len(),
{
    if s.len() > 0 {
        let t = s.drop_last();
        assert forall|i: int| 0 <= i < t.len() implies head_hash(head, (#[trigger] t[i]).path) == Some(hex_lower(t[i].sha1)) by {
            assert(t[i] == s[i]);
        }
        lemma_staged_none(t, head);
        assert(head_hash(head, s[s.len() - 1].path) == Some(hex_lower(s[s.len() - 1].sha1)));
    }
}

/// Paths all held by the index: nothing deleted from HEAD's view.
proof fn lemma_deleted_none(head: Seq<HeadFile>, s: Seq<EntryView>)
    requires
        forall|j: int| 0 <= j < head.len() ==> index_has(s, (#[trigger] head[j]).path@),
    ensures
        staged_deleted_spec(head, s).len() == 0,
    decreases head.len(),
{
    if head.len() > 0 {
        let t = head.drop_last();
        assert forall|j: int| 0 <= j < t.len() implies index_has(s, (#[trigger] t[j]).path@) by {
            assert(t[j] == head[j]);
        }
        lemma_deleted_none(t, s);
        assert(index_has(s, head[head.len() - 1].path@));
    }
}

/// Working paths all held by the index: nothing untracked.
proof fn lemma_untracked_none(wd: Seq<WorkFile>, s: Seq<EntryView>)
    requires
        forall|j: int| 0 <= j < wd.len() ==> index_has(s, (#[trigger] wd[j]).path@),
    ensures
        untracked_spec(wd, s).len() == 0,
    decreases wd.len(),
{
    if wd.len() > 0 {
        let t = wd.drop_last();
        assert forall|j: int| 0 <= j < t.len() implies index_has(s, (#[trigger] t[j]).path@) by {
            assert(t[j] == wd[j]);
        }
        lemma_untracked_none(t, s);
        assert(index_has(s, wd[wd.len() - 1].path@));
    }
}

/// A staged file is in the working directory, and if its time changed its
/// content did not.
spec fn file_unchanged(wd: Seq<WorkFile>, e: EntryView, differs: bool) -> bool {
    match work_mtime(wd, e.path) {
        Some(m) => m != e.mtime ==> !differs,
        None => false,
    }
}

/// Index paths all found in the working directory, and none whose time
/// changed has other content: nothing deleted, nothing modified.
proof fn lemma_unstaged_none(s: Seq<EntryView>, wd: Seq<WorkFile>, differs: Seq<bool>)
    requires
        forall|i: int| 0 <= i < s.len() ==> #[trigger] file_unchanged(wd, s[i], differs[i]),
    ensures
        unstaged_deleted_spec(s, wd).len() == 0,
        unstaged_modified_spec(s, wd, differs).len() == 0,
    decreases s.len(),
{
    if s.len() > 0 {
        let t = s.drop_last();
        assert forall|i: int| 0 <= i < t.len() implies #[trigger] file_unchanged(wd, t[i], differs[i]) by {
            assert(t[i] == s[i]);
        }
        lemma_unstaged_none(t, wd, differs);
        assert(file_unchanged(wd, s[s.len() - 1], differs[s.len() - 1]));
    }
}

/// When HEAD holds exactly the staged files with the staged blobs, and the
/// working directory holds exactly the staged files, each with the
/// modification time the index recorded or else content that hashes to the
/// staged blob, the status report is empty in every part; a file whose
/// time is unchanged is not read again.
pub proof fn lemma_status_clean(s: Seq<EntryView>, head: Seq<HeadFile>, wd: Seq<WorkFile>, differs: Seq<bool>)
    requires
        sorted_by_path(s),
        head_matches_index(head, s),
        workdir_lists_index(wd, s),
        forall|i: int| 0 <= i < s.len() && (#[trigger] wd[i]).mtime != s[i].mtime ==> !differs[i],
    ensures
        staged_new_spec(s, head).len() == 0,
        staged_modified_spec(s, head).len() == 0,
        staged_deleted_spec(head, s).len() == 0,
        unstaged_modified_spec(s, wd, differs).len() == 0,
        unstaged_deleted_spec(s, wd).len() == 0,
        untracked_spec(wd, s).len() == 0,
        forall|i: int| 0 <= i < s.len() ==> (#[trigger] rehash_spec(s, wd)[i] <==> wd[i].mtime != s[i].mtime),
{
    assert forall|i: int| 0 <= i < s.len() implies head_hash(head, (#[trigger] s[i]).path) == Some(hex_lower(s[i].sha1)) by {
        assert forall|j: int| 0 <= j < i implies (#[trigger] head[j]).path@ != head[i].path@ by {
            lemma_sorted_paths_distinct(s, j, i);
        }
        lemma_head_hash_at(head, i);
    }
    assert forall|i: int| 0 <= i < s.len() implies #[trigger] work_mtime(wd, s[i].path) == Some(wd[i].mtime) by {
        assert forall|j: int| 0 <= j < i implies (#[trigger] wd[j]).path@ != wd[i].path@ by {
            lemma_sorted_paths_distinct(s, j, i);
        }
        lemma_work_mtime_at(wd, i);
    }
    assert forall|i: int| 0 <= i < s.len() implies #[trigger] file_unchanged(wd, s[i], differs[i]) by {
        assert(work_mtime(wd, s[i].path) == Some(wd[i].mtime));
        if wd[i].mtime != s[i].mtime {
            assert(!differs[i]);
        }
    }
    assert forall|j: int| 0 <= j < head.len() implies index_has(s, (#[trigger] head[j]).path@) by {
        assert(s[j].path == head[j].path@);
    }
    assert forall|j: int| 0 <= j < wd.len() implies index_has(s, (#[trigger] wd[j]).path@) by {
        assert(s[j].path == wd[j].path@);
    }
    lemma_staged_none(s, head);
    lemma_deleted_none(head, s);
    lemma_untracked_none(wd, s);
    lemma_unstaged_none(s, wd, differs);
}

/// Each path on a line of its own after `prefix`.
pub open spec fn listed(prefix: Seq<u8>, ps: Seq<Seq<char>>) -> Seq<u8>
    decreases ps.len(),
{
    if ps.len() == 0 {
        Seq::empty()
    } else {
        listed(prefix, ps.drop_last()) + prefix + encode_utf8(ps.last()) + seq![10u8]
    }
}

/// `w` stands in `t` from byte `o` on.
pub open spec fn occurs_at(t: Seq<u8>, o: int, w: Seq<u8>) -> bool {
    &&& 0 <= o
    &&& o + w.len() <= t.len()
    &&& t.subrange(o, o + w.len()) == w
}

/// The line that shows `path` after `prefix`.
pub open spec fn path_line(prefix: Seq<u8>, path: Seq<char>) -> Seq<u8> {
    prefix + encode_utf8(path) + seq![10u8]
}

/// `w` stands somewhere in `t`.
pub open spec fn shows_line(t: Seq<u8>, w: Seq<u8>) -> bool {
    exists|o: int| occurs_at(t, o, w)
}

/// `v` stands in `t` wholly after some place where `w` stands.
pub open spec fn shows_after(t: Seq<u8>, w: Seq<u8>, v: Seq<u8>) -> bool {
    exists|o: int, q: int| occurs_at(t, o, w) && occurs_at(t, q, v) && o + w.len() <= q
}

/// `t` shows every path of `ps` on a line of its own after `prefix`, each
/// line wholly after the lines of the paths before it.
#[verifier::opaque]
pub open spec fn shows_in_order(t: Seq<u8>, prefix: Seq<u8>, ps: Seq<Seq<char>>) -> bool {
    &&& forall|k: int| 0 <= k < ps.len() ==> shows_line(t, path_line(prefix, #[trigger] ps[k]))
    &&& forall|k: int, m: int|
        0 <= k < m < ps.len() ==> shows_after(t, path_line(prefix, #[trigger] ps[k]), path_line(prefix, #[trigger] ps[m]))
}

/// The lines of the first paths begin the lines of all of them.
proof fn lemma_listed_take(prefix: Seq<u8>, ps: Seq<Seq<char>>, m: int)
    requires
        0 <= m <= ps.len(),
    ensures
        listed(prefix, ps.take(m)).len() <= listed(prefix, ps).len(),
        listed(prefix, ps).take(listed(prefix, ps.take(m)).len() as int) == listed(prefix, ps.take(m)),
    decreases ps.len(),
{
    if m == ps.len() {
        assert(ps.take(m) =~= ps);
        assert(listed(prefix, ps).take(listed(prefix, ps).len() as int) =~= listed(prefix, ps));
    } else {
        let w = ps.drop_last();
        lemma_listed_take(prefix, w, m);
        assert(w.take(m) =~= ps.take(m));
        let a = listed(prefix, w);
        let b = listed(prefix, ps.take(m));
        assert(listed(prefix, ps) == a + prefix + encode_utf8(ps.last()) + seq![10u8]);
        assert(listed(prefix, ps).take(b.len() as int) =~= a.take(b.len() as int));
    }
}

/// The line of path `k` stands after the lines of the paths before it.
proof fn lemma_listed_line_at(prefix: Seq<u8>, ps: Seq<Seq<char>>, k: int)
    requires
        0 <= k < ps.len(),
    ensures
        occurs_at(listed(prefix, ps), listed(prefix, ps.take(k)).len() as int, path_line(prefix, ps[k])),
        listed(prefix, ps.take(k + 1)).len() == listed(prefix, ps.take(k)).len() + path_line(prefix, ps[k]).len(),
{
    let u = ps.take(k + 1);
    assert(u.drop_last() =~= ps.take(k));
    assert(u.last() == ps[k]);
    let a = listed(prefix, ps.take(k));
    let line = path_line(prefix, ps[k]);
    assert(listed(prefix, u) =~= a + line);
    lemma_listed_take(prefix, ps, k + 1);
    let t = listed(prefix, ps);
    assert(t.subrange(a.len() as int, (a.len() + line.len()) as int) =~= line) by {
        assert forall|j: int| 0 <= j < line.len() implies t.subrange(a.len() as int, (a.len() + line.len()) as int)[j] == line[j] by {
            assert(t.take(listed(prefix, u).len() as int)[a.len() + j] == listed(prefix, u)[a.len() + j]);
        }
    }
}

/// The listed paths show in order.
proof fn lemma_listed_shows(prefix: Seq<u8>, ps: Seq<Seq<char>>)
    ensures
        shows_in_order(listed(prefix, ps), prefix, ps),
{
    reveal(shows_in_order);
    let t = listed(prefix, ps);
    assert forall|k: int| 0 <= k < ps.len() implies shows_line(t, path_line(prefix, #[trigger] ps[k])) by {
        lemma_listed_line_at(prefix, ps, k);
    }
    assert forall|k: int, m: int| 0 <= k < m < ps.len() implies shows_after(
        t,
        path_line(prefix, #[trigger] ps[k]),
        path_line(prefix, #[trigger] ps[m]),
    ) by {
        lemma_listed_line_at(prefix, ps, k);
        lemma_listed_line_at(prefix, ps, m);
        lemma_listed_take(prefix, ps.take(m), k + 1);
        assert(ps.take(m).take(k + 1) =~= ps.take(k + 1));
        let o = listed(prefix, ps.take(k)).len() as int;
        let q = listed(prefix, ps.take(m)).len() as int;
        assert(occurs_at(t, o, path_line(prefix, ps[k])));
        assert(occurs_at(t, q, path_line(prefix, ps[m])));
    }
}

/// Text put before and after keeps what a text shows, in order.
proof fn lemma_shows_framed(a: Seq<u8>, t: Seq<u8>, b: Seq<u8>, prefix: Seq<u8>, ps: Seq<Seq<char>>)
    requires
        shows_in_order(t, prefix, ps),
    ensures
        shows_in_order(a + t + b, prefix, ps),
{
    reveal(shows_in_order);
    let big = a + t + b;
    assert forall|o: int, w: Seq<u8>| #[trigger] occurs_at(t, o, w) implies occurs_at(big, a.len() + o, w) by {
        assert(big.subrange(a.len() + o, a.len() + o + w.len()) =~= t.subrange(o, o + w.len()));
    }
    assert forall|k: int| 0 <= k < ps.len() implies shows_line(big, path_line(prefix, #[trigger] ps[k])) by {
        assert(shows_line(t, path_line(prefix, ps[k])));
        let o = choose|o: int| occurs_at(t, o, path_line(prefix, ps[k]));
        assert(occurs_at(big, a.len() + o, path_line(prefix, ps[k])));
    }
    assert forall|k: int, m: int| 0 <= k < m < ps.len() implies shows_after(
        big,
        path_line(prefix, #[trigger] ps[k]),
        path_line(prefix, #[trigger] ps[m]),
    ) by {
        assert(shows_after(t, path_line(prefix, ps[k]), path_line(prefix, ps[m])));
        let (o, q) = choose|o: int, q: int|
            occurs_at(t, o, path_line(prefix, ps[k])) && occurs_at(t, q, path_line(prefix, ps[m])) && o + path_line(
                prefix,
                ps[k],
            ).len() <= q;
        assert(occurs_at(big, a.len() + o, path_line(prefix, ps[k])));
        assert(occurs_at(big, a.len() + q, path_line(prefix, ps[m])));
    }
}

/// The staged section of the report: a heading and the new, modified and
/// deleted paths, only when there are some.
pub open spec fn staged_section(r: StatusReport) -> Seq<u8> {
    let new = texts_view(r.staged_new@);
    let modified = texts_view(r.staged_modified@);
    let deleted = texts_view(r.staged_deleted@);
    if new.len() > 0 || modified.len() > 0 || deleted.len() > 0 {
        "Changes to be committed:\n".spec_bytes() + listed("\tnew file:   ".spec_bytes(), new) + listed(
            "\tmodified:   ".spec_bytes(),
            modified,
        ) + listed("\tdeleted:    ".spec_bytes(), deleted) + "\n".spec_bytes()
    } else {
        Seq::empty()
    }
}

/// The unstaged section of the report, only when there are such changes.
pub open spec fn unstaged_section(r: StatusReport) -> Seq<u8> {
    let umod = texts_view(r.unstaged_modified@);
    let udel = texts_view(r.unstaged_deleted@);
    if umod.len() > 0 || udel.len() > 0 {
        "Changes not staged for commit:\n".spec_bytes() + listed("\tmodified:   ".spec_bytes(), umod)
            + listed("\tdeleted:    ".spec_bytes(), udel) + "\n".spec_bytes()
    } else {
        Seq::empty()
    }
}

/// The untracked section of the report, only when there are such files.
pub open spec fn untracked_section(r: StatusReport) -> Seq<u8> {
    let untracked = texts_view(r.untracked@);
    if untracked.len() > 0 {
        "Untracked files:\n".spec_bytes() + listed("\t".spec_bytes(), untracked) + "\n".spec_bytes()
    } else {
        Seq::empty()
    }
}

/// The report holds nothing at all.
pub open spec fn report_clean(r: StatusReport) -> bool {
    &&& r.staged_new@.len() == 0
    &&& r.staged_modified@.len() == 0
    &&& r.staged_deleted@.len() == 0
    &&& r.unstaged_modified@.len() == 0
    &&& r.unstaged_deleted@.len() == 0
    &&& r.untracked@.len() == 0
}

/// The report as the status command prints it: staged changes, unstaged
/// changes and untracked files, each section only when it has entries, or
/// a line saying that there is nothing to commit.
pub open spec fn status_text(r: StatusReport) -> Seq<u8> {
    staged_section(r) + unstaged_section(r) + untracked_section(r) + (if report_clean(r) {
        "nothing to commit, working tree clean\n".spec_bytes()
    } else {
        Seq::empty()
    })
}

/// A text shows the paths of an empty list.
proof fn lemma_shows_none(t: Seq<u8>, prefix: Seq<u8>, ps: Seq<Seq<char>>)
    requires
        ps.len() == 0,
    ensures
        shows_in_order(t, prefix, ps),
{
    reveal(shows_in_order);
}

/// A section of three lists, between other text, shows each of them.
proof fn lemma_three_lists(
    before: Seq<u8>,
    head: Seq<u8>,
    p1: Seq<u8>,
    l1: Seq<Seq<char>>,
    p2: Seq<u8>,
    l2: Seq<Seq<char>>,
    p3: Seq<u8>,
    l3: Seq<Seq<char>>,
    after: Seq<u8>,
)
    ensures
        shows_in_order(before + (head + listed(p1, l1) + listed(p2, l2) + listed(p3, l3)) + after, p1, l1),
        shows_in_order(before + (head + listed(p1, l1) + listed(p2, l2) + listed(p3, l3)) + after, p2, l2),
        shows_in_order(before + (head + listed(p1, l1) + listed(p2, l2) + listed(p3, l3)) + after, p3, l3),
{
    let a = listed(p1, l1);
    let b = listed(p2, l2);
    let c = listed(p3, l3);
    let t = before + (head + a + b + c) + after;
    lemma_listed_shows(p1, l1);
    lemma_listed_shows(p2, l2);
    lemma_listed_shows(p3, l3);
    assert(t =~= (before + head) + a + (b + c + after));
    lemma_shows_framed(before + head, a, b + c + after, p1, l1);
    assert(t =~= (before + head + a) + b + (c + after));
    lemma_shows_framed(before + head + a, b, c + after, p2, l2);
    assert(t =~= (before + head + a + b) + c + after);
    lemma_shows_framed(before + head + a + b, c, after, p3, l3);
}

/// Every path of every list of the report is printed on a line of its own
/// after the label of its list, each in the order of its list.
pub proof fn lemma_report_shows_every_path(r: StatusReport)
    ensures
        shows_in_order(status_text(r), "\tnew file:   ".spec_bytes(), texts_view(r.staged_new@)),
        shows_in_order(status_text(r), "\tmodified:   ".spec_bytes(), texts_view(r.staged_modified@)),
        shows_in_order(status_text(r), "\tdeleted:    ".spec_bytes(), texts_view(r.staged_deleted@)),
        shows_in_order(status_text(r), "\tmodified:   ".spec_bytes(), texts_view(r.unstaged_modified@)),
        shows_in_order(status_text(r), "\tdeleted:    ".spec_bytes(), texts_view(r.unstaged_deleted@)),
        shows_in_order(status_text(r), "\t".spec_bytes(), texts_view(r.untracked@)),
{
    let new = texts_view(r.staged_new@);
    let modified = texts_view(r.staged_modified@);
    let deleted = texts_view(r.staged_deleted@);
    let umod = texts_view(r.unstaged_modified@);
    let udel = texts_view(r.unstaged_deleted@);
    let untracked = texts_view(r.untracked@);
    let pn = "\tnew file:   ".spec_bytes();
    let pm = "\tmodified:   ".spec_bytes();
    let pd = "\tdeleted:    ".spec_bytes();
    let pu = "\t".spec_bytes();
    let e = Seq::<u8>::empty();
    let st = staged_section(r);
    let us = unstaged_section(r);
    let ut = untracked_section(r);
    let tail = status_text(r).skip((st.len() + us.len() + ut.len()) as int);
    let text = status_text(r);
    assert(text =~= st + us + ut + tail);
    if new.len() > 0 || modified.len() > 0 || deleted.len() > 0 {
        let h = "Changes to be committed:\n".spec_bytes();
        let nl = "\n".spec_bytes();
        let body = listed(pn, new) + listed(pm, modified) + listed(pd, deleted);
        assert(st =~= h + listed(pn, new) + listed(pm, modified) + listed(pd, deleted) + nl);
        assert(text =~= e + (h + listed(pn, new) + listed(pm, modified) + listed(pd, deleted)) + (nl + us + ut + tail));
        lemma_three_lists(e, h, pn, new, pm, modified, pd, deleted, nl + us + ut + tail);
    } else {
        lemma_shows_none(text, pn, new);
        lemma_shows_none(text, pm, modified);
        lemma_shows_none(text, pd, deleted);
    }
    if umod.len() > 0 || udel.len() > 0 {
        let h = "Changes not staged for commit:\n".spec_bytes();
        let nl = "\n".spec_bytes();
        assert(us =~= h + listed(pm, umod) + listed(pd, udel) + nl);
        assert(text =~= st + (h + listed(pm, umod) + listed(pd, udel) + listed(pu, Seq::empty())) + (nl + ut + tail));
        lemma_three_lists(st, h, pm, umod, pd, udel, pu, Seq::empty(), nl + ut + tail);
    } else {
        lemma_shows_none(text, pm, umod);
        lemma_shows_none(text, pd, udel);
    }
    if untracked.len() > 0 {
        let h = "Untracked files:\n".spec_bytes();
        let nl = "\n".spec_bytes();
        assert(ut =~= h + listed(pu, untracked) + nl);
        assert(text =~= (st + us) + (h + listed(pu, untracked) + listed(pm, Seq::empty()) + listed(pd, Seq::empty()))
            + (nl + tail));
        lemma_three_lists(st + us, h, pu, untracked, pm, Seq::empty(), pd, Seq::empty(), nl + tail);
    } else {
        lemma_shows_none(text, pu, untracked);
    }
}

/// An empty report prints as the one line saying there is nothing to
/// commit; a report with anything in it does not print that line.
pub proof fn lemma_clean_report_text(r: StatusReport)
    ensures
        report_clean(r) ==> status_text(r) == "nothing to commit, working tree clean\n".spec_bytes(),
        !report_clean(r) ==> status_text(r) == staged_section(r) + unstaged_section(r) + untracked_section(r),
{
    if report_clean(r) {
        assert(texts_view(r.staged_new@).len() == 0);
        assert(texts_view(r.staged_modified@).len() == 0);
        assert(texts_view(r.staged_deleted@).len() == 0);
        assert(texts_view(r.unstaged_modified@).len() == 0);
        assert(texts_view(r.unstaged_deleted@).len() == 0);
        assert(texts_view(r.untracked@).len() == 0);
        let line = "nothing to commit, working tree clean\n".spec_bytes();
        assert(Seq::<u8>::empty() + Seq::<u8>::empty() + Seq::<u8>::empty() + line =~= line);
    } else {
        let t = staged_section(r) + unstaged_section(r) + untracked_section(r);
        assert(t + Seq::<u8>::empty() =~= t);
    }
}

/// Appends the UTF-8 bytes of a text.
fn append_str(v: &mut Vec<u8>, s: &str)
    requires
        valid_utf8(old(v)@),
    ensures
        valid_utf8(final(v)@),
        final(v)@ == old(v)@ + s.spec_bytes(),
{
    proof {
        encode_utf8_valid_utf8(s@);
    }
    append_valid(v, s.as_bytes());
}

/// Appends each path on a line of its own after `prefix`.
fn append_listed(v: &mut Vec<u8>, prefix: &str, ps: &Vec<String>)
    requires
        valid_utf8(old(v)@),
    ensures
        valid_utf8(final(v)@),
        final(v)@ == old(v)@ + listed(prefix.spec_bytes(), texts_view(ps@)),
{
    let ghost start = v@;
    let ghost t = texts_view(ps@);
    let mut i: usize = 0;
    assert(t.take(0) =~= Seq::<Seq<char>>::empty());
    assert(v@ =~= start + listed(prefix.spec_bytes(), t.take(0)));
    while i < ps.len()
        invariant
            t == texts_view(ps@),
            i <= ps@.len(),
            valid_utf8(v@),
            v@ == start + listed(prefix.spec_bytes(), t.take(i as int)),
        decreases ps.len() - i,
    {
        append_str(v, prefix);
        append_str(v, ps[i].as_str());
        append_str(v, "\n");
        proof {
            reveal_strlit("\n");
            assert("\n".spec_bytes() =~= seq![10u8]) by {
                vstd::utf8::is_ascii_chars_encode_utf8("\n"@);
            }
            let u = t.take(i + 1);
            assert(u.drop_last() =~= t.take(i as int));
            assert(u.last() == ps@[i as int]@);
        }
        i = i + 1;
        assert(v@ =~= start + listed(prefix.spec_bytes(), t.take(i as int)));
    }
    assert(t.take(i as int) =~= t);
}

/// Appends the staged section of the report.
fn append_staged(v: &mut Vec<u8>, r: &StatusReport)
    requires
        valid_utf8(old(v)@),
    ensures
        valid_utf8(final(v)@),
        final(v)@ == old(v)@ + staged_section(*r),
{
    let ghost start = v@;
    if r.staged_new.len() > 0 || r.staged_modified.len() > 0 || r.staged_deleted.len() > 0 {
        append_str(v, "Changes to be committed:\n");
        append_listed(v, "\tnew file:   ", &r.staged_new);
        append_listed(v, "\tmodified:   ", &r.staged_modified);
        append_listed(v, "\tdeleted:    ", &r.staged_deleted);
        append_str(v, "\n");
    }
    assert(v@ =~= start + staged_section(*r));
}

/// Appends the unstaged section of the report.
fn append_unstaged(v: &mut Vec<u8>, r: &StatusReport)
    requires
        valid_utf8(old(v)@),
    ensures
        valid_utf8(final(v)@),
        final(v)@ == old(v)@ + unstaged_section(*r),
{
    let ghost start = v@;
    if r.unstaged_modified.len() > 0 || r.unstaged_deleted.len() > 0 {
        append_str(v, "Changes not staged for commit:\n");
        append_listed(v, "\tmodified:   ", &r.unstaged_modified);
        append_listed(v, "\tdeleted:    ", &r.unstaged_deleted);
        append_str(v, "\n");
    }
    assert(v@ =~= start + unstaged_section(*r));
}

/// Appends the untracked section of the report.
fn append_untracked(v: &mut Vec<u8>, r: &StatusReport)
    requires
        valid_utf8(old(v)@),
    ensures
        valid_utf8(final(v)@),
        final(v)@ == old(v)@ + untracked_section(*r),
{
    let ghost start = v@;
    if r.untracked.len() > 0 {
        append_str(v, "Untracked files:\n");
        append_listed(v, "\t", &r.untracked);
        append_str(v, "\n");
    }
    assert(v@ =~= start + untracked_section(*r));
}

/// The report as the status command prints it.
pub fn render_status(r: &StatusReport) -> (res: String)
    ensures
        encode_utf8(res@) == status_text(*r),
{
    let mut v: Vec<u8> = Vec::new();
    proof {
        lemma_ascii_valid_utf8(v@);
    }
    let ghost v0 = v@;
    append_staged(&mut v, r);
    append_unstaged(&mut v, r);
    append_untracked(&mut v, r);
    let ghost v3 = v@;
    let clean = r.staged_new.len() == 0 && r.staged_modified.len() == 0 && r.staged_deleted.len() == 0
        && r.unstaged_modified.len() == 0 && r.unstaged_deleted.len() == 0 && r.untracked.len() == 0;
    if clean {
        append_str(&mut v, "nothing to commit, working tree clean\n");
    }
    assert(v0 =~= Seq::<u8>::empty());
    assert(v@ =~= status_text(*r));
    string_of_utf8(v)
}

} // verus!
