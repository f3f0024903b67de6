//! Calendar time: a point in time as seconds since the epoch, and a civil
//! date and time of day in the proleptic Gregorian calendar, read as UTC.

use vstd::prelude::*;
use vstd::std_specs::convert::FromSpecImpl;
use crate::text::{decimal, decimal_padded, is_digit, lemma_decimal_chars, push_char, push_decimal,
    push_decimal_padded};

verus! {

/// A point in time: whole seconds since 1970-01-01 00:00:00, and nanoseconds.
#[derive(Clone, Copy, Debug, PartialEq, Eq, PartialOrd, Ord, Hash, Structural)]
pub struct Timespec {
    pub sec: i64,
    pub nsec: i32,
}

impl Timespec {
    /// The epoch itself, which is also the timestamp of an empty directory.
    pub open spec fn zero() -> Timespec {
        Timespec { sec: 0, nsec: 0 }
    }

    /// Whether `self` is not later than `other`: by seconds, then by
    /// nanoseconds.
    pub open spec fn at_most(self, other: Timespec) -> bool {
        self.sec < other.sec || (self.sec == other.sec && self.nsec <= other.nsec)
    }

    /// The later of two points in time.
    pub open spec fn later(self, other: Timespec) -> Timespec {
        if self.at_most(other) {
            other
        } else {
            self
        }
    }

    pub fn new(sec: i64, nsec: i32) -> (r: Timespec)
        ensures
            r == (Timespec { sec, nsec }),
    {
        Timespec { sec, nsec }
    }

    /// Whether `self` is strictly earlier than `other`.
    pub fn earlier_than(&self, other: &Timespec) -> (r: bool)
        ensures
            r == !other.at_most(*self),
    {
        self.sec < other.sec || (self.sec == other.sec && self.nsec < other.nsec)
    }

    /// The later of `self` and `other`.
    pub fn max(self, other: Timespec) -> (r: Timespec)
        ensures
            r == self.later(other),
    {
        if other.earlier_than(&self) {
            self
        } else {
            other
        }
    }
}

/// `std::time::SystemTime`, a point in time as the system counts it.
#[verifier::external_type_specification]
#[verifier::external_body]
pub struct ExSystemTime(std::time::SystemTime);

/// How far a time of the system lies after the epoch (`Ok`) or before it
/// (`Err`), in whole seconds and nanoseconds, as `SystemTime::duration_since`
/// tells it.
pub uninterp spec fn epoch_offset(time: std::time::SystemTime) -> Result<(u64, u32), (u64, u32)>;

/// `SystemTime::duration_since`, from the epoch: how far a point in time
/// lies after the epoch (`Ok`) or before it (`Err`), in whole seconds and
/// nanoseconds. The nanoseconds are less than a second.
#[verifier::external_body]
fn duration_since_epoch(time: std::time::SystemTime) -> (r: Result<(u64, u32), (u64, u32)>)
    ensures
        r == epoch_offset(time),
        match r {
            Ok((_, nanos)) => nanos < 1_000_000_000,
            Err((_, nanos)) => nanos < 1_000_000_000,
        },
{
    match time.duration_since(std::time::UNIX_EPOCH) {
        Ok(after) => Ok((after.as_secs(), after.subsec_nanos())),
        Err(e) => Err((e.duration().as_secs(), e.duration().subsec_nanos())),
    }
}

/// The point in time that lies a number of seconds and nanoseconds after
/// the epoch (`Ok`) or before it (`Err`). Before the epoch both numbers are
/// counted below zero. Seconds past the range of `i64` wrap around.
pub open spec fn timespec_at(offset: Result<(u64, u32), (u64, u32)>) -> Timespec {
    match offset {
        Ok((secs, nanos)) => Timespec { sec: secs as i64, nsec: nanos as i32 },
        Err((secs, nanos)) => Timespec {
            sec: 0i64.wrapping_sub(secs as i64),
            nsec: 0i32.wrapping_sub(nanos as i32),
        },
    }
}

/// The point in time that lies a number of seconds and nanoseconds after
/// the epoch (`Ok`) or before it (`Err`).
pub fn timespec_from_offset(offset: Result<(u64, u32), (u64, u32)>) -> (r: Timespec)
    ensures
        r == timespec_at(offset),
{
    match offset {
        Ok((secs, nanos)) => Timespec {
            sec: #[verifier::truncate] (secs as i64),
            nsec: #[verifier::truncate] (nanos as i32),
        },
        Err((secs, nanos)) => {
            let s: i64 = #[verifier::truncate] (secs as i64);
            let n: i32 = #[verifier::truncate] (nanos as i32);
            Timespec { sec: 0i64.wrapping_sub(s), nsec: 0i32.wrapping_sub(n) }
        },
    }
}

/// Converts a time of the system to seconds and nanoseconds since the
/// epoch, both below zero for a time before it.
pub fn system_time_to_timespec(time: std::time::SystemTime) -> (r: Timespec)
    ensures
        r == timespec_at(epoch_offset(time)),
        -1_000_000_000 < r.nsec < 1_000_000_000,
{
    timespec_from_offset(duration_since_epoch(time))
}

/// The time at which a file was modified, or the current time where that
/// could not be read.
pub fn timestamp(modified: Option<std::time::SystemTime>, now: std::time::SystemTime) -> (r:
    std::time::SystemTime)
    ensures
        r == match modified {
            Some(time) => time,
            None => now,
        },
{
    match modified {
        Some(time) => time,
        None => now,
    }
}

/// What `time::strptime` reads from a text under a format: the fields of
/// the time for second, minute, hour, day of the month, month and year, as
/// that crate counts them; `None` where the text does not fit the format.
pub uninterp spec fn parsed_time(text: Seq<char>, format: Seq<char>) -> Option<
    (int, int, int, int, int, int),
>;

/// Whether a character after `%` in a format asks for a year of four
/// digits, a month, a day, an hour, a minute or a second.
pub open spec fn is_plain_directive(c: char) -> bool {
    c == 'Y' || c == 'm' || c == 'd' || c == 'H' || c == 'M' || c == 'S'
}

/// Whether a format asks for nothing but year, month, day, hour, minute
/// and second: each `%` in it is followed by the letter of one of them.
pub open spec fn is_plain_format(format: Seq<char>) -> bool
    decreases format.len(),
{
    if format.len() == 0 {
        true
    } else if format[0] == '%' {
        format.len() >= 2 && is_plain_directive(format[1]) && is_plain_format(format.skip(2))
    } else {
        is_plain_format(format.skip(1))
    }
}

/// Whether a format asks for nothing but year, month, day, hour, minute
/// and second.
pub fn plain_format(format: &str) -> (r: bool)
    ensures
        r == is_plain_format(format@),
{
    let n = format.unicode_len();
    let mut i: usize = 0;
    proof {
        assert(format@.skip(0) =~= format@);
    }
    while i < n
        invariant
            i <= n,
            n == format@.len(),
            is_plain_format(format@) == is_plain_format(format@.skip(i as int)),
        decreases n - i,
    {
        let ghost rest = format@.skip(i as int);
        proof {
            assert(rest[0] == format@[i as int]);
        }
        if format.get_char(i) == '%' {
            if i + 1 >= n {
                return false;
            }
            let c = format.get_char(i + 1);
            proof {
                assert(rest[1] == c);
                assert(rest.skip(2) =~= format@.skip(i + 2));
            }
            if !(c == 'Y' || c == 'm' || c == 'd' || c == 'H' || c == 'M' || c == 'S') {
                return false;
            }
            i += 2;
        } else {
            proof {
                assert(rest.skip(1) =~= format@.skip(i + 1));
            }
            i += 1;
        }
    }
    true
}

/// `time::strptime`: reads a time from a text under a format, and gives
/// the fields `tm_sec`, `tm_min`, `tm_hour`, `tm_mday`, `tm_mon` and
/// `tm_year` of what it read. The format may ask for year, month, day,
/// hour, minute and second only: what else a format can ask for may end in
/// a panic.
#[verifier::external_body]
fn strptime(text: &str, format: &str) -> (r: Option<(i32, i32, i32, i32, i32, i32)>)
    requires
        is_plain_format(format@),
    ensures
        r is Some == parsed_time(text@, format@) is Some,
        r is Some ==> {
            let found = r.unwrap();
            let named = parsed_time(text@, format@).unwrap();
            &&& found.0 == named.0
            &&& found.1 == named.1
            &&& found.2 == named.2
            &&& found.3 == named.3
            &&& found.4 == named.4
            &&& found.5 == named.5
        },
{
    match time::strptime(text, format) {
        Ok(tm) => Some((tm.tm_sec, tm.tm_min, tm.tm_hour, tm.tm_mday, tm.tm_mon, tm.tm_year)),
        Err(_) => None,
    }
}

/// The timestamp for the fields of a time that count months from 0 and
/// years from 1900, where year and month fit.
pub open spec fn timestamp_of_fields(fields: (int, int, int, int, int, int)) -> Option<Timestamp> {
    if fields.4 + 1 <= i32::MAX && fields.5 + 1900 <= i32::MAX {
        Some(
            Timestamp {
                year: (fields.5 + 1900) as i32,
                month: (fields.4 + 1) as i32,
                day: fields.3 as i32,
                hour: fields.2 as i32,
                minute: fields.1 as i32,
                second: fields.0 as i32,
            },
        )
    } else {
        None
    }
}

/// The timestamp that a text holds under a format that asks for nothing
/// but year, month, day, hour, minute and second, where the text fits the
/// format. Under another format no text holds a timestamp.
pub open spec fn timestamp_in(text: Seq<char>, format: Seq<char>) -> Option<Timestamp> {
    if is_plain_format(format) {
        match parsed_time(text, format) {
            Some(fields) => timestamp_of_fields(fields),
            None => None,
        }
    } else {
        None
    }
}

/// The timestamp for the fields of a time that count months from 0 and
/// years from 1900: second, minute, hour, day, month and year.
pub fn timestamp_from_fields(fields: (i32, i32, i32, i32, i32, i32)) -> (r: Option<Timestamp>)
    ensures
        r == timestamp_of_fields(
            (
                fields.0 as int,
                fields.1 as int,
                fields.2 as int,
                fields.3 as int,
                fields.4 as int,
                fields.5 as int,
            ),
        ),
{
    match (fields.4.checked_add(1), fields.5.checked_add(1900)) {
        (Some(month), Some(year)) => Some(
            Timestamp {
                year,
                month,
                day: fields.3,
                hour: fields.2,
                minute: fields.1,
                second: fields.0,
            },
        ),
        _ => None,
    }
}

/// Reads a timestamp from a text under a format. A format that asks for
/// more than year, month, day, hour, minute and second reads none.
pub fn parse_timestamp(text: &str, format: &str) -> (r: Option<Timestamp>)
    ensures
        r == timestamp_in(text@, format@),
{
    if !plain_format(format) {
        return None;
    }
    match strptime(text, format) {
        Some(fields) => timestamp_from_fields(fields),
        None => None,
    }
}

/// Days from 1970-01-01 to the given day of the proleptic Gregorian calendar,
/// for a month from 1 to 12. The day of the month is counted on from the
/// first of the month, also past its end.
pub open spec fn days_from_civil(year: int, month: int, day: int) -> int {
    // Years run from March to February, so that a leap day ends its year.
    let y = if month <= 2 { year - 1 } else { year };
    let era = y / 400;
    let year_of_era = y % 400;
    let shifted_month = (month + 9) % 12;
    let day_of_year = (153 * shifted_month + 2) / 5 + day - 1;
    let day_of_era = year_of_era * 365 + year_of_era / 4 - year_of_era / 100 + day_of_year;
    era * 146097 + day_of_era - 719468
}

/// Whether a year of the Gregorian calendar has a 29th of February.
pub open spec fn is_leap_year(year: int) -> bool {
    year % 4 == 0 && (year % 100 != 0 || year % 400 == 0)
}

/// The number of days of a month from 1 to 12.
pub open spec fn days_in_month(year: int, month: int) -> int {
    if month == 2 {
        if is_leap_year(year) { 29 } else { 28 }
    } else if month == 4 || month == 6 || month == 9 || month == 11 {
        30
    } else {
        31
    }
}

/// The quotient of a division that rounds towards negative infinity.
fn floor_div(a: i64, b: i64) -> (q: i64)
    requires
        b > 0,
    ensures
        q == a / b,
{
    assert(i64::MIN <= a / b <= i64::MAX) by (nonlinear_arith)
        requires
            b > 0,
            i64::MIN <= a <= i64::MAX,
    ;
    match a.checked_div_euclid(b) {
        Some(q) => q,
        None => 0,
    }
}

/// The remainder of a division that rounds towards negative infinity.
fn floor_mod(a: i64, b: i64) -> (r: i64)
    requires
        b > 0,
    ensures
        r == a % b,
        0 <= r < b,
{
    assert(0 <= a % b < b) by (nonlinear_arith)
        requires
            b > 0,
    ;
    match a.checked_rem_euclid(b) {
        Some(r) => r,
        None => 0,
    }
}

fn civil_days(year: i64, month: i64, day: i64) -> (days: i64)
    requires
        -2500000000 <= year <= 2500000000,
        1 <= month <= 12,
        i32::MIN <= day <= i32::MAX,
    ensures
        days == days_from_civil(year as int, month as int, day as int),
        -1000000000000 <= days <= 1000000000000,
{
    let y: i64 = if month <= 2 { year - 1 } else { year };
    let era = floor_div(y, 400);
    let year_of_era = floor_mod(y, 400);
    let shifted_month = floor_mod(month + 9, 12);
    let day_of_year: i64 = (153 * shifted_month + 2) / 5 + day - 1;
    let day_of_era: i64 = year_of_era * 365 + year_of_era / 4 - year_of_era / 100 + day_of_year;
    era * 146097 + day_of_era - 719468
}

/// The first second that has a timestamp.
pub const FIRST_SECOND: i64 = -60_000_000_000_000_000;

/// The last second that has a timestamp.
pub const LAST_SECOND: i64 = 60_000_000_000_000_000;

/// The day of the calendar that lies `days` days after 1970-01-01: year,
/// month and day of the month.
fn civil_of_days(days: i64) -> (r: (i64, i64, i64))
    requires
        -700_000_000_000 <= days <= 700_000_000_000,
    ensures
        days_from_civil(r.0 as int, r.1 as int, r.2 as int) == days,
        1 <= r.1 <= 12,
        1 <= r.2 <= days_in_month(r.0 as int, r.1 as int),
        -2_000_000_000 <= r.0 <= 2_000_000_000,
{
    // Eras of 400 years start on the first of March, so that a leap day is
    // the last day of its year, of its four years and of its century.
    let shifted: i64 = days + 719468;
    let era = floor_div(shifted, 146097);
    let day_of_era = floor_mod(shifted, 146097);
    let century: i64 = if day_of_era / 36524 < 3 { day_of_era / 36524 } else { 3 };
    let day_of_century: i64 = day_of_era - century * 36524;
    let cycle: i64 = if day_of_century / 1461 < 24 { day_of_century / 1461 } else { 24 };
    let day_of_cycle: i64 = day_of_century - cycle * 1461;
    let year_of_cycle: i64 = if day_of_cycle / 365 < 3 { day_of_cycle / 365 } else { 3 };
    let day_of_year: i64 = day_of_cycle - year_of_cycle * 365;
    let year_of_era: i64 = century * 100 + cycle * 4 + year_of_cycle;
    let shifted_month: i64 = (5 * day_of_year + 2) / 153;
    let day: i64 = day_of_year - (153 * shifted_month + 2) / 5 + 1;
    let month: i64 = if shifted_month < 10 { shifted_month + 3 } else { shifted_month - 9 };
    let march_year: i64 = year_of_era + era * 400;
    let year: i64 = if month <= 2 { march_year + 1 } else { march_year };
    proof {
        assert(0 <= year_of_era <= 399);
        assert(0 <= day_of_year <= 365);
        assert(year_of_era / 4 == century * 25 + cycle);
        assert(year_of_era / 100 == century);
        assert(day_of_era == year_of_era * 365 + year_of_era / 4 - year_of_era / 100
            + day_of_year);
        assert(march_year / 400 == era && march_year % 400 == year_of_era) by {
            lemma_quotient(march_year as int, 400, era as int, year_of_era as int);
        }
        assert(0 <= shifted_month <= 11);
        assert((month + 9) % 12 == shifted_month);
        assert(day_of_year == 365 ==> year_of_cycle == 3 && (cycle < 24 || century == 3));
        assert(day_of_year == 365 ==> is_leap_year(march_year + 1)) by {
            if day_of_year == 365 {
                lemma_quotient(march_year + 1, 4, era * 100 + century * 25 + cycle + 1, 0);
                if century == 3 && cycle == 24 {
                    lemma_quotient(march_year + 1, 400, era + 1, 0);
                } else {
                    lemma_quotient(
                        march_year + 1,
                        100,
                        era * 4 + century,
                        cycle * 4 + year_of_cycle + 1,
                    );
                }
            }
        }
    }
    (year, month, day)
}

/// A number that is `q` times a divisor and a remainder more has `q` as
/// its quotient.
proof fn lemma_quotient(a: int, d: int, q: int, r: int)
    requires
        d > 0,
        0 <= r < d,
        a == q * d + r,
    ensures
        a / d == q,
        a % d == r,
{
    vstd::arithmetic::div_mod::lemma_fundamental_div_mod_converse(a, d, q, r);
}

/// A civil date and time of day, to the second.
///
/// The fields hold whatever the timestamp was made from; a month past 12 or
/// a day past the end of its month counts on into the next year or month
/// when the timestamp is placed on the time line.
#[derive(Clone, Copy, Debug, PartialEq, Eq, Hash, Structural)]
pub struct Timestamp {
    pub year: i32,
    pub month: i32,
    pub day: i32,
    pub hour: i32,
    pub minute: i32,
    pub second: i32,
}

impl Timestamp {
    /// Whether the fields name a day that the calendar has and a time of
    /// day that a clock shows.
    pub open spec fn is_civil(self) -> bool {
        &&& 1 <= self.month <= 12
        &&& 1 <= self.day <= days_in_month(self.year as int, self.month as int)
        &&& 0 <= self.hour < 24
        &&& 0 <= self.minute < 60
        &&& 0 <= self.second < 60
    }

    /// Seconds from the epoch to this timestamp.
    pub open spec fn epoch_seconds(self) -> int {
        let months = self.year * 12 + (self.month - 1);
        days_from_civil(months / 12, months % 12 + 1, self.day as int) * 86400 + self.hour * 3600
            + self.minute * 60 + self.second
    }

    /// The point in time of this timestamp.
    pub open spec fn timespec(self) -> Timespec {
        Timespec { sec: self.epoch_seconds() as i64, nsec: 0 }
    }

    /// The text of this timestamp: year, month and day joined by `-`, a
    /// space, then hour and minute joined by `:`. All but the year are at
    /// least two digits wide.
    pub open spec fn text(self) -> Seq<char> {
        decimal(self.year as int) + seq!['-'] + decimal_padded(self.month as int) + seq!['-']
            + decimal_padded(self.day as int) + seq![' '] + decimal_padded(self.hour as int)
            + seq![':'] + decimal_padded(self.minute as int)
    }

    pub fn year(&self) -> (r: i32)
        ensures
            r == self.year,
    {
        self.year
    }

    pub fn month(&self) -> (r: i32)
        ensures
            r == self.month,
    {
        self.month
    }

    pub fn day(&self) -> (r: i32)
        ensures
            r == self.day,
    {
        self.day
    }

    /// The point in time of this timestamp.
    pub fn to_timespec(&self) -> (r: Timespec)
        ensures
            r == self.timespec(),
            r.sec == self.epoch_seconds(),
    {
        let months: i64 = (self.year as i64) * 12 + (self.month as i64 - 1);
        let year = floor_div(months, 12);
        let month = floor_mod(months, 12) + 1;
        let days = civil_days(year, month, self.day as i64);
        let sec: i64 = days * 86400 + (self.hour as i64) * 3600 + (self.minute as i64) * 60 + (
        self.second as i64);
        Timespec { sec, nsec: 0 }
    }

    /// The timestamp of a point in time, which has one where its second is
    /// not before `FIRST_SECOND` and not after `LAST_SECOND`: the civil
    /// date and time of day of that second.
    pub fn from_timespec(t: Timespec) -> (r: Option<Timestamp>)
        ensures
            r is Some == (FIRST_SECOND <= t.sec <= LAST_SECOND),
            r is Some ==> r.unwrap().is_civil() && r.unwrap().epoch_seconds() == t.sec,
    {
        if t.sec < FIRST_SECOND || t.sec > LAST_SECOND {
            return None;
        }
        let days = floor_div(t.sec, 86400);
        let second_of_day = floor_mod(t.sec, 86400);
        let (year, month, day) = civil_of_days(days);
        let hour = second_of_day / 3600;
        let minute = (second_of_day % 3600) / 60;
        let second = second_of_day % 60;
        let r = Timestamp {
            year: year as i32,
            month: month as i32,
            day: day as i32,
            hour: hour as i32,
            minute: minute as i32,
            second: second as i32,
        };
        proof {
            let months = year * 12 + (month - 1);
            lemma_quotient(months as int, 12, year as int, month - 1);
            assert(t.sec == days * 86400 + second_of_day);
            assert(second_of_day == hour * 3600 + minute * 60 + second);
        }
        Some(r)
    }

    /// The timestamp of a time of the system, where its second has one.
    pub fn from_system_time(time: std::time::SystemTime) -> (r: Option<Timestamp>)
        ensures
            r is Some == (FIRST_SECOND <= timespec_at(epoch_offset(time)).sec <= LAST_SECOND),
            r is Some ==> r.unwrap().is_civil() && r.unwrap().epoch_seconds() == timespec_at(
                epoch_offset(time),
            ).sec,
    {
        Timestamp::from_timespec(system_time_to_timespec(time))
    }

    /// The text of this timestamp, such as `2000-01-01 12:00`.
    pub fn to_string(&self) -> (r: String)
        ensures
            r@ == self.text(),
    {
        let mut s = String::new();
        push_decimal(&mut s, self.year as i64);
        push_char(&mut s, '-');
        push_decimal_padded(&mut s, self.month as i64);
        push_char(&mut s, '-');
        push_decimal_padded(&mut s, self.day as i64);
        push_char(&mut s, ' ');
        push_decimal_padded(&mut s, self.hour as i64);
        push_char(&mut s, ':');
        push_decimal_padded(&mut s, self.minute as i64);
        assert(s@ =~= self.text());
        s
    }
}

/// Whether a character can stand in the text of a timestamp.
pub open spec fn is_timestamp_char(c: char) -> bool {
    is_digit(c) || c == '-' || c == ' ' || c == ':'
}

/// The text of a timestamp starts with a digit or a minus sign and holds
/// only digits, minus signs, one space and one colon.
pub proof fn lemma_timestamp_text(t: Timestamp)
    ensures
        t.text().len() >= 1,
        is_digit(t.text()[0]) || t.text()[0] == '-',
        forall|i: int| 0 <= i < t.text().len() ==> is_timestamp_char(#[trigger] t.text()[i]),
{
    lemma_decimal_chars(t.year as int);
    lemma_decimal_chars(t.month as int);
    lemma_decimal_chars(t.day as int);
    lemma_decimal_chars(t.hour as int);
    lemma_decimal_chars(t.minute as int);
    let y = decimal(t.year as int);
    let mo = decimal_padded(t.month as int);
    let d = decimal_padded(t.day as int);
    let h = decimal_padded(t.hour as int);
    let mi = decimal_padded(t.minute as int);
    let text = t.text();
    assert(text[0] == y[0]);
    assert forall|i: int| 0 <= i < text.len() implies is_timestamp_char(#[trigger] text[i]) by {
        let a = y.len();
        let b = a + 1 + mo.len();
        let c = b + 1 + d.len();
        let e = c + 1 + h.len();
        if i < a {
            assert(text[i] == y[i]);
        } else if i == a {
            assert(text[i] == '-');
        } else if i < b {
            assert(text[i] == mo[i - a - 1]);
        } else if i == b {
            assert(text[i] == '-');
        } else if i < c {
            assert(text[i] == d[i - b - 1]);
        } else if i == c {
            assert(text[i] == ' ');
        } else if i < e {
            assert(text[i] == h[i - c - 1]);
        } else if i == e {
            assert(text[i] == ':');
        } else {
            assert(text[i] == mi[i - e - 1]);
        }
    }
}

impl From<(i32, i32, i32, i32, i32, i32)> for Timestamp {
    /// A timestamp from year, month, day, hour, minute and second.
    fn from(v: (i32, i32, i32, i32, i32, i32)) -> (r: Timestamp) {
        Timestamp { year: v.0, month: v.1, day: v.2, hour: v.3, minute: v.4, second: v.5 }
    }
}

impl FromSpecImpl<(i32, i32, i32, i32, i32, i32)> for Timestamp {
    open spec fn obeys_from_spec() -> bool {
        true
    }

    open spec fn from_spec(v: (i32, i32, i32, i32, i32, i32)) -> Timestamp {
        Timestamp { year: v.0, month: v.1, day: v.2, hour: v.3, minute: v.4, second: v.5 }
    }
}

impl From<(i32, i32, i32)> for Timestamp {
    /// A timestamp at midnight from year, month and day.
    fn from(v: (i32, i32, i32)) -> (r: Timestamp) {
        Timestamp { year: v.0, month: v.1, day: v.2, hour: 0, minute: 0, second: 0 }
    }
}

impl FromSpecImpl<(i32, i32, i32)> for Timestamp {
    open spec fn obeys_from_spec() -> bool {
        true
    }

    open spec fn from_spec(v: (i32, i32, i32)) -> Timestamp {
        Timestamp { year: v.0, month: v.1, day: v.2, hour: 0, minute: 0, second: 0 }
    }
}

/// The first day of a month lies as many days after the first day of the
/// month before as that month has.
pub proof fn lemma_next_month(year: int, month: int)
    requires
        1 <= month <= 12,
    ensures
        month < 12 ==> days_from_civil(year, month + 1, 1) == days_from_civil(year, month, 1)
            + days_in_month(year, month),
        month == 12 ==> days_from_civil(year + 1, 1, 1) == days_from_civil(year, 12, 1) + 31,
{
    if month == 2 {
        // The year that starts in March of `year` follows the one that
        // February belongs to.
        let before = year - 1;
        let q = before / 400;
        let r = before % 400;
        if r == 399 {
            lemma_quotient(year, 400, q + 1, 0);
        } else {
            lemma_quotient(year, 400, q, r + 1);
        }
        assert(year % 4 == 0 <==> (r + 1) % 4 == 0) by {
            lemma_quotient(year, 4, q * 100 + (r + 1) / 4, (r + 1) % 4);
        }
        assert(year % 100 == 0 <==> (r + 1) % 100 == 0) by {
            lemma_quotient(year, 100, q * 4 + (r + 1) / 100, (r + 1) % 100);
        }
        assert(year % 400 == 0 <==> r == 399);
    }
}

/// The first day of a later month of a year lies after every day of an
/// earlier month.
pub proof fn lemma_months_in_order(year: int, earlier: int, later: int)
    requires
        1 <= earlier < later <= 12,
    ensures
        days_from_civil(year, earlier, 1) + days_in_month(year, earlier) <= days_from_civil(
            year,
            later,
            1,
        ),
    decreases later - earlier,
{
    lemma_next_month(year, earlier);
    if earlier + 1 < later {
        lemma_months_in_order(year, earlier + 1, later);
    }
}

/// The first day of a year lies at least 365 days after the first day of
/// the year before.
pub proof fn lemma_next_year(year: int)
    ensures
        days_from_civil(year + 1, 1, 1) >= days_from_civil(year, 1, 1) + 365,
{
    lemma_next_month(year, 1);
    lemma_next_month(year, 2);
    lemma_next_month(year, 3);
    lemma_next_month(year, 4);
    lemma_next_month(year, 5);
    lemma_next_month(year, 6);
    lemma_next_month(year, 7);
    lemma_next_month(year, 8);
    lemma_next_month(year, 9);
    lemma_next_month(year, 10);
    lemma_next_month(year, 11);
    lemma_next_month(year, 12);
}

/// The first day of a later year lies at least 365 days after the first
/// day of an earlier year.
pub proof fn lemma_years_in_order(earlier: int, later: int)
    requires
        earlier < later,
    ensures
        days_from_civil(later, 1, 1) >= days_from_civil(earlier, 1, 1) + 365,
    decreases later - earlier,
{
    lemma_next_year(earlier);
    if earlier + 1 < later {
        lemma_years_in_order(earlier + 1, later);
    }
}

/// Whether one day of the calendar comes before another.
pub open spec fn date_before(a: Timestamp, b: Timestamp) -> bool {
    a.year < b.year || (a.year == b.year && (a.month < b.month || (a.month == b.month && a.day
        < b.day)))
}

/// The days from the epoch to the day of a timestamp.
pub open spec fn epoch_days(t: Timestamp) -> int {
    days_from_civil(t.year as int, t.month as int, t.day as int)
}

/// A day of the calendar that comes before another lies fewer days from the
/// epoch.
pub proof fn lemma_dates_in_order(a: Timestamp, b: Timestamp)
    requires
        a.is_civil(),
        b.is_civil(),
        date_before(a, b),
    ensures
        epoch_days(a) < epoch_days(b),
{
    let ya = a.year as int;
    let yb = b.year as int;
    let ma = a.month as int;
    let mb = b.month as int;
    assert(epoch_days(a) == days_from_civil(ya, ma, 1) + a.day - 1);
    assert(epoch_days(b) == days_from_civil(yb, mb, 1) + b.day - 1);
    if ya == yb {
        if ma < mb {
            lemma_months_in_order(ya, ma, mb);
        }
    } else {
        // The day of `a` lies in its year, that of `b` not before the first
        // day of a later year.
        if ma < 12 {
            lemma_months_in_order(ya, ma, 12);
        }
        lemma_next_month(ya, 12);
        if ya + 1 < yb {
            lemma_years_in_order(ya + 1, yb);
        }
        if 1 < mb {
            lemma_months_in_order(yb, 1, mb);
        }
    }
}

/// The seconds from the epoch to a civil timestamp are those to the start
/// of its day and those of its time of day, which are fewer than a day has.
pub proof fn lemma_epoch_seconds_of_civil(t: Timestamp)
    requires
        t.is_civil(),
    ensures
        t.epoch_seconds() == epoch_days(t) * 86400 + t.hour * 3600 + t.minute * 60 + t.second,
        0 <= t.hour * 3600 + t.minute * 60 + t.second < 86400,
{
    let months = t.year * 12 + (t.month - 1);
    lemma_quotient(months, 12, t.year as int, t.month - 1);
}

/// A number of days and a time of day are the only ones of their second.
proof fn lemma_day_and_second(d1: int, s1: int, d2: int, s2: int)
    requires
        0 <= s1 < 86400,
        0 <= s2 < 86400,
        d1 * 86400 + s1 == d2 * 86400 + s2,
    ensures
        d1 == d2,
        s1 == s2,
{
}

/// Hour, minute and second are the only ones of their second of the day.
proof fn lemma_time_of_day(h1: int, m1: int, s1: int, h2: int, m2: int, s2: int)
    requires
        0 <= m1 < 60,
        0 <= s1 < 60,
        0 <= m2 < 60,
        0 <= s2 < 60,
        h1 * 3600 + m1 * 60 + s1 == h2 * 3600 + m2 * 60 + s2,
    ensures
        h1 == h2,
        m1 == m2,
        s1 == s2,
{
    lemma_quotient(h1 * 3600 + m1 * 60 + s1, 60, h1 * 60 + m1, s1);
    lemma_quotient(h2 * 3600 + m2 * 60 + s2, 60, h2 * 60 + m2, s2);
    lemma_quotient(h1 * 60 + m1, 60, h1, m1);
    lemma_quotient(h2 * 60 + m2, 60, h2, m2);
}

/// A civil timestamp is the only one of its second: two civil timestamps
/// that lie equally many seconds from the epoch are the same.
pub proof fn lemma_civil_unique(a: Timestamp, b: Timestamp)
    requires
        a.is_civil(),
        b.is_civil(),
        a.epoch_seconds() == b.epoch_seconds(),
    ensures
        a == b,
{
    lemma_epoch_seconds_of_civil(a);
    lemma_epoch_seconds_of_civil(b);
    let sa = a.hour * 3600 + a.minute * 60 + a.second;
    let sb = b.hour * 3600 + b.minute * 60 + b.second;
    lemma_day_and_second(epoch_days(a), sa, epoch_days(b), sb);
    lemma_time_of_day(
        a.hour as int,
        a.minute as int,
        a.second as int,
        b.hour as int,
        b.minute as int,
        b.second as int,
    );
    lemma_same_date(a, b);
}

/// Two civil timestamps whose days lie equally many days from the epoch are
/// of one day.
proof fn lemma_same_date(a: Timestamp, b: Timestamp)
    requires
        a.is_civil(),
        b.is_civil(),
        epoch_days(a) == epoch_days(b),
    ensures
        a.year == b.year,
        a.month == b.month,
        a.day == b.day,
{
    if date_before(a, b) {
        lemma_dates_in_order(a, b);
    }
    if date_before(b, a) {
        lemma_dates_in_order(b, a);
    }
}

/// Of two civil timestamps, the one that comes first by year, month, day,
/// hour, minute and second lies fewer seconds from the epoch.
pub proof fn lemma_civil_in_order(a: Timestamp, b: Timestamp)
    requires
        a.is_civil(),
        b.is_civil(),
        date_before(a, b) || (a.year == b.year && a.month == b.month && a.day == b.day && (a.hour
            < b.hour || (a.hour == b.hour && (a.minute < b.minute || (a.minute == b.minute
            && a.second < b.second))))),
    ensures
        a.epoch_seconds() < b.epoch_seconds(),
{
    lemma_epoch_seconds_of_civil(a);
    lemma_epoch_seconds_of_civil(b);
    if date_before(a, b) {
        lemma_dates_in_order(a, b);
    }
}

} // verus!
