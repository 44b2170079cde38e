//! Minute-precision wall-clock times: decoding the compact
//! `YYYYMMDDTHHMM...` form, moving a UTC time to a fixed offset, ordering
//! and rendering.

use chrono::{Datelike, Timelike};
use vstd::prelude::*;

use crate::text::chars_of;

verus! {

/// A wall-clock time, to the minute, read at one fixed offset from UTC.
#[derive(Clone, Copy, Debug, PartialEq, Eq, Structural)]
pub struct Instant {
    pub year: i32,
    pub month: u32,
    pub day: u32,
    pub hour: u32,
    pub minute: u32,
}

/// Why a timestamp could not be decoded.
#[derive(Clone, Copy, Debug, PartialEq, Eq, Structural)]
pub enum DecodeError {
    /// Too short, or a field that is not all decimal digits.
    Format,
    /// The digits name no calendar date, or no time of day.
    Range,
}

/// The offset of the report's times east of UTC, in seconds (UTC+9).
pub const REPORT_OFFSET_SECONDS: i32 = 32400;

pub open spec fn is_leap_year(y: int) -> bool {
    (y % 4 == 0 && y % 100 != 0) || y % 400 == 0
}

pub open spec fn days_in_month(y: int, m: int) -> int {
    if m == 2 {
        if is_leap_year(y) {
            29
        } else {
            28
        }
    } else if m == 4 || m == 6 || m == 9 || m == 11 {
        30
    } else {
        31
    }
}

/// `y-m-d` is a day of the proleptic Gregorian calendar.
pub open spec fn is_calendar_date(y: int, m: int, d: int) -> bool {
    1 <= m <= 12 && 1 <= d <= days_in_month(y, m)
}

impl Instant {
    /// A real date and time of day, with a year of at most five digits.
    pub open spec fn wf(self) -> bool {
        &&& 0 <= self.year <= 10000
        &&& is_calendar_date(self.year as int, self.month as int, self.day as int)
        &&& self.hour < 24
        &&& self.minute < 60
    }

    /// `self` comes strictly before `other` (both read at the same offset).
    pub open spec fn precedes(self, other: Instant) -> bool {
        ||| self.year < other.year
        ||| self.year == other.year && self.month < other.month
        ||| self.year == other.year && self.month == other.month && self.day < other.day
        ||| self.year == other.year && self.month == other.month && self.day == other.day
            && self.hour < other.hour
        ||| self.year == other.year && self.month == other.month && self.day == other.day
            && self.hour == other.hour && self.minute < other.minute
    }

    /// Whether `self` comes strictly before `other`.
    pub fn is_before(&self, other: &Instant) -> (r: bool)
        ensures
            r == self.precedes(*other),
    {
        if self.year != other.year {
            self.year < other.year
        } else if self.month != other.month {
            self.month < other.month
        } else if self.day != other.day {
            self.day < other.day
        } else if self.hour != other.hour {
            self.hour < other.hour
        } else {
            self.minute < other.minute
        }
    }

    /// The time rendered as `YYYY/MM/DD HH:MM`.
    pub fn render(&self) -> (r: String)
        requires
            self.wf(),
        ensures
            r@ == instant_text(*self),
    {
        format_wall_clock(self)
    }
}

/// `i` moved `h` hours later, `0 <= h < 24`, rolling over into the next day,
/// month or year.
pub open spec fn plus_hours(i: Instant, h: int) -> Instant {
    if i.hour + h < 24 {
        Instant { hour: (i.hour + h) as u32, ..i }
    } else {
        let hour = (i.hour + h - 24) as u32;
        if i.day < days_in_month(i.year as int, i.month as int) {
            Instant { day: (i.day + 1) as u32, hour, ..i }
        } else if i.month < 12 {
            Instant { month: (i.month + 1) as u32, day: 1, hour, ..i }
        } else {
            Instant { year: (i.year + 1) as i32, month: 1, day: 1, hour, ..i }
        }
    }
}

pub open spec fn digit_char(n: int) -> char {
    seq!['0', '1', '2', '3', '4', '5', '6', '7', '8', '9'][n]
}

/// `n`, `0 <= n < 100`, as two digits.
pub open spec fn two_digits(n: int) -> Seq<char> {
    seq![digit_char(n / 10), digit_char(n % 10)]
}

/// `n`, `0 <= n < 10000`, as four digits.
pub open spec fn four_digits(n: int) -> Seq<char> {
    two_digits(n / 100) + two_digits(n % 100)
}

/// A year as `%Y` writes it: four digits up to 9999, beyond that a sign and
/// all the digits.
pub open spec fn year_text(y: int) -> Seq<char> {
    if y < 10000 {
        four_digits(y)
    } else {
        seq!['+', digit_char(y / 10000)] + four_digits(y % 10000)
    }
}

/// `i` as `YYYY/MM/DD HH:MM`.
pub open spec fn instant_text(i: Instant) -> Seq<char> {
    year_text(i.year as int) + seq!['/'] + two_digits(i.month as int) + seq!['/'] + two_digits(
        i.day as int,
    ) + seq![' '] + two_digits(i.hour as int) + seq![':'] + two_digits(i.minute as int)
}

/// Relies on chrono's `NaiveDateTime::format` with `%Y/%m/%d %H:%M`: the year
/// zero-padded to four digits (signed past 9999), every other field as two
/// zero-padded digits. The date and time are built with `from_ymd_opt` and
/// `and_hms_opt`, which succeed on a well-formed value.
#[verifier::external_body]
fn format_wall_clock(i: &Instant) -> (r: String)
    requires
        i.wf(),
    ensures
        r@ == instant_text(*i),
{
    let date = chrono::NaiveDate::from_ymd_opt(i.year, i.month, i.day).unwrap();
    date.and_hms_opt(i.hour, i.minute, 0).unwrap().format("%Y/%m/%d %H:%M").to_string()
}

/// Relies on chrono's `DateTime::<Utc>::with_timezone` to a `FixedOffset`:
/// the same moment read at `offset_seconds` east of UTC, that is the UTC
/// wall-clock time moved later by the offset. `east_opt` accepts any offset
/// under a day.
#[verifier::external_body]
fn utc_to_offset(utc: &Instant, offset_seconds: i32) -> (r: Instant)
    requires
        utc.wf(),
        utc.year < 10000,
        0 <= offset_seconds < 86400,
        offset_seconds % 3600 == 0,
    ensures
        r == plus_hours(*utc, offset_seconds / 3600),
{
    let date = chrono::NaiveDate::from_ymd_opt(utc.year, utc.month, utc.day).unwrap();
    let naive = date.and_hms_opt(utc.hour, utc.minute, 0).unwrap();
    let offset = chrono::FixedOffset::east_opt(offset_seconds).unwrap();
    let t = naive.and_utc().with_timezone(&offset);
    Instant { year: t.year(), month: t.month(), day: t.day(), hour: t.hour(), minute: t.minute() }
}

pub proof fn lemma_plus_hours_wf(i: Instant, h: int)
    requires
        i.wf(),
        i.year < 10000,
        0 <= h < 24,
    ensures
        plus_hours(i, h).wf(),
{
}

pub open spec fn is_digit(c: char) -> bool {
    '0' <= c && c <= '9'
}

pub open spec fn all_digits(s: Seq<char>) -> bool {
    forall|k: int| 0 <= k < s.len() ==> is_digit(#[trigger] s[k])
}

/// The number that the decimal digits `s` write.
pub open spec fn number_of(s: Seq<char>) -> int
    decreases s.len(),
{
    if s.len() == 0 {
        0
    } else {
        number_of(s.drop_last()) * 10 + ((s.last() as u32) - ('0' as u32))
    }
}

/// A compact timestamp `YYYYMMDD?HHMM...` read as a UTC wall-clock time: the
/// character after the day and all after the minutes are ignored, seconds
/// are taken as zero.
pub open spec fn decode_utc(s: Seq<char>) -> Result<Instant, DecodeError> {
    if s.len() < 13 || !all_digits(s.subrange(0, 8)) || !all_digits(s.subrange(9, 13)) {
        Err(DecodeError::Format)
    } else {
        let y = number_of(s.subrange(0, 4));
        let m = number_of(s.subrange(4, 6));
        let d = number_of(s.subrange(6, 8));
        let h = number_of(s.subrange(9, 11));
        let mi = number_of(s.subrange(11, 13));
        if !is_calendar_date(y, m, d) || h >= 24 || mi >= 60 {
            Err(DecodeError::Range)
        } else {
            Ok(Instant { year: y as i32, month: m as u32, day: d as u32, hour: h as u32, minute: mi as u32 })
        }
    }
}

/// A compact UTC timestamp, decoded and moved to the report's offset.
pub open spec fn decode(s: Seq<char>) -> Result<Instant, DecodeError> {
    match decode_utc(s) {
        Ok(u) => Ok(plus_hours(u, (REPORT_OFFSET_SECONDS / 3600) as int)),
        Err(e) => Err(e),
    }
}

proof fn lemma_number_bound(s: Seq<char>)
    requires
        all_digits(s),
    ensures
        0 <= number_of(s) < pow10(s.len()),
    decreases s.len(),
{
    if s.len() > 0 {
        lemma_number_bound(s.drop_last());
        let p = pow10((s.len() - 1) as nat);
        let v = number_of(s.drop_last());
        assert(v * 10 + 9 < p * 10) by (nonlinear_arith)
            requires
                v < p,
        ;
    }
}

pub open spec fn pow10(n: nat) -> int
    decreases n,
{
    if n == 0 {
        1
    } else {
        10 * pow10((n - 1) as nat)
    }
}

/// The number written by the digits `s[from..to]`, if they are all digits.
fn read_number(s: &[char], from: usize, to: usize) -> (r: Option<u32>)
    requires
        from <= to <= s@.len(),
        to - from <= 4,
    ensures
        r is Some <==> all_digits(s@.subrange(from as int, to as int)),
        r is Some ==> r->0 as int == number_of(s@.subrange(from as int, to as int)),
{
    let mut v: u32 = 0;
    let mut i: usize = from;
    while i < to
        invariant
            from <= i <= to <= s@.len(),
            to - from <= 4,
            all_digits(s@.subrange(from as int, i as int)),
            v as int == number_of(s@.subrange(from as int, i as int)),
        decreases to - i,
    {
        let c = s[i];
        if !('0' <= c && c <= '9') {
            assert(!is_digit(s@.subrange(from as int, to as int)[i - from]));
            return None;
        }
        proof {
            let sub = s@.subrange(from as int, i as int);
            lemma_number_bound(sub);
            assert(pow10(sub.len()) <= 1000) by {
                reveal_with_fuel(pow10, 4);
            }
            assert(s@.subrange(from as int, i + 1).drop_last() =~= sub);
        }
        v = v * 10 + ((c as u32) - ('0' as u32));
        i = i + 1;
        assert(all_digits(s@.subrange(from as int, i as int))) by {
            assert forall|k: int| 0 <= k < i - from implies is_digit(
                #[trigger] s@.subrange(from as int, i as int)[k],
            ) by {
                if k < i - 1 - from {
                    assert(s@.subrange(from as int, i - 1)[k] == s@[from + k]);
                }
            }
        }
    }
    Some(v)
}

/// Decodes the compact UTC timestamp `s[from..]`, giving the wall-clock time
/// at the report's offset.
pub fn decode_at(s: &[char], from: usize) -> (r: Result<Instant, DecodeError>)
    requires
        from <= s@.len(),
    ensures
        r == decode(s@.skip(from as int)),
        r matches Ok(i) ==> i.wf(),
{
    let ghost t = s@.skip(from as int);
    if s.len() - from < 13 {
        return Err(DecodeError::Format);
    }
    assert(t.subrange(0, 4) =~= s@.subrange(from as int, from + 4));
    assert(t.subrange(4, 6) =~= s@.subrange(from + 4, from + 6));
    assert(t.subrange(6, 8) =~= s@.subrange(from + 6, from + 8));
    assert(t.subrange(9, 11) =~= s@.subrange(from + 9, from + 11));
    assert(t.subrange(11, 13) =~= s@.subrange(from + 11, from + 13));
    let year = read_number(s, from, from + 4);
    let month = read_number(s, from + 4, from + 6);
    let day = read_number(s, from + 6, from + 8);
    let hour = read_number(s, from + 9, from + 11);
    let minute = read_number(s, from + 11, from + 13);
    proof {
        lemma_all_digits_split(t.subrange(0, 8), 4);
        lemma_all_digits_split(t.subrange(0, 8).subrange(4, 8), 2);
        lemma_all_digits_split(t.subrange(9, 13), 2);
        assert(t.subrange(0, 8).subrange(0, 4) =~= t.subrange(0, 4));
        assert(t.subrange(0, 8).subrange(4, 8).subrange(0, 2) =~= t.subrange(4, 6));
        assert(t.subrange(0, 8).subrange(4, 8).subrange(2, 4) =~= t.subrange(6, 8));
        assert(t.subrange(9, 13).subrange(0, 2) =~= t.subrange(9, 11));
        assert(t.subrange(9, 13).subrange(2, 4) =~= t.subrange(11, 13));
        if year is Some {
            lemma_number_bound(t.subrange(0, 4));
            assert(pow10(4) == 10000) by {
                reveal_with_fuel(pow10, 5);
            }
        }
    }
    match (year, month, day, hour, minute) {
        (Some(y), Some(m), Some(d), Some(h), Some(mi)) => {
            if !(is_date(y, m, d) && h < 24 && mi < 60) {
                return Err(DecodeError::Range);
            }
            let utc = Instant { year: y as i32, month: m, day: d, hour: h, minute: mi };
            proof {
                lemma_plus_hours_wf(utc, 9);
            }
            Ok(utc_to_offset(&utc, REPORT_OFFSET_SECONDS))
        },
        _ => Err(DecodeError::Format),
    }
}

proof fn lemma_all_digits_split(s: Seq<char>, k: int)
    requires
        0 <= k <= s.len(),
    ensures
        all_digits(s) <==> all_digits(s.subrange(0, k)) && all_digits(
            s.subrange(k, s.len() as int),
        ),
{
    if all_digits(s.subrange(0, k)) && all_digits(s.subrange(k, s.len() as int)) {
        assert forall|j: int| 0 <= j < s.len() implies is_digit(#[trigger] s[j]) by {
            if j < k {
                assert(s.subrange(0, k)[j] == s[j]);
            } else {
                assert(s.subrange(k, s.len() as int)[j - k] == s[j]);
            }
        }
    }
}

/// Whether `y-m-d` is a calendar date.
fn is_date(y: u32, m: u32, d: u32) -> (r: bool)
    requires
        y < 10000,
    ensures
        r == is_calendar_date(y as int, m as int, d as int),
{
    let leap = (y % 4 == 0 && y % 100 != 0) || y % 400 == 0;
    let days: u32 = if m == 2 {
        if leap {
            29
        } else {
            28
        }
    } else if m == 4 || m == 6 || m == 9 || m == 11 {
        30
    } else {
        31
    };
    1 <= m && m <= 12 && 1 <= d && d <= days
}

/// Decodes a compact UTC timestamp `YYYYMMDDTHHMM...` into the wall-clock
/// time at the report's offset (UTC+9).
pub fn parse_date_time(s: &str) -> (r: Result<Instant, DecodeError>)
    ensures
        r == decode(s@),
        r matches Ok(i) ==> i.wf(),
{
    let v = chars_of(s);
    assert(v@.skip(0) =~= v@);
    decode_at(v.as_slice(), 0)
}

} // verus!
