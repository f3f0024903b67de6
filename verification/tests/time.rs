use medifs::time::{
    parse_timestamp, plain_format, system_time_to_timespec, timespec_from_offset, timestamp,
    timestamp_from_fields, Timespec, Timestamp, FIRST_SECOND, LAST_SECOND,
};
use std::time::{Duration, SystemTime, UNIX_EPOCH};

#[test]
fn timestamp_exposes_year_month_and_day() {
    let t = Timestamp::from((2000, 2, 29));
    assert_eq!((2000, 2, 29), (t.year(), t.month(), t.day()));
    assert_eq!((0, 0, 0), (t.hour, t.minute, t.second));
    let t = Timestamp::from((1999, 12, 31, 23, 59, 58));
    assert_eq!((23, 59, 58), (t.hour, t.minute, t.second));
}

#[test]
fn timestamp_text_pads_all_but_the_year() {
    assert_eq!("2000-01-01 12:00", Timestamp::from((2000, 1, 1, 12, 0, 0)).to_string());
    assert_eq!("1-02-03 04:05", Timestamp::from((1, 2, 3, 4, 5, 6)).to_string());
    assert_eq!("-44-03-15 00:00", Timestamp::from((-44, 3, 15)).to_string());
    assert_eq!("12345-10-11 12:13", Timestamp::from((12345, 10, 11, 12, 13, 14)).to_string());
}

#[test]
fn to_timespec_counts_seconds_from_the_epoch() {
    assert_eq!(Timespec::new(0, 0), Timestamp::from((1970, 1, 1)).to_timespec());
    assert_eq!(Timespec::new(946684800, 0), Timestamp::from((2000, 1, 1)).to_timespec());
    assert_eq!(Timespec::new(951782400, 0), Timestamp::from((2000, 2, 29)).to_timespec());
    assert_eq!(
        Timespec::new(1709251199, 0),
        Timestamp::from((2024, 2, 29, 23, 59, 59)).to_timespec(),
    );
    assert_eq!(Timespec::new(-1, 0), Timestamp::from((1969, 12, 31, 23, 59, 59)).to_timespec());
    assert_eq!(Timespec::new(-2208988800, 0), Timestamp::from((1900, 1, 1)).to_timespec());
}

#[test]
fn to_timespec_carries_fields_past_their_range() {
    assert_eq!(
        Timestamp::from((2001, 1, 1)).to_timespec(),
        Timestamp::from((2000, 13, 1)).to_timespec(),
    );
    assert_eq!(
        Timestamp::from((2000, 3, 1)).to_timespec(),
        Timestamp::from((2000, 2, 30)).to_timespec(),
    );
    assert_eq!(
        Timestamp::from((1999, 12, 31, 23, 0, 0)).to_timespec(),
        Timestamp::from((2000, 1, 1, -1, 0, 0)).to_timespec(),
    );
    assert_eq!(
        Timestamp::from((1999, 12, 1)).to_timespec(),
        Timestamp::from((2000, 0, 1)).to_timespec(),
    );
}

#[test]
fn from_timespec_gives_the_civil_time() {
    assert_eq!(
        Some(Timestamp::from((1970, 1, 1))),
        Timestamp::from_timespec(Timespec::new(0, 0)),
    );
    assert_eq!(
        Some(Timestamp::from((2000, 2, 29, 12, 34, 56))),
        Timestamp::from_timespec(Timespec::new(951827696, 999)),
    );
    assert_eq!(
        Some(Timestamp::from((1969, 12, 31, 23, 59, 59))),
        Timestamp::from_timespec(Timespec::new(-1, 0)),
    );
    assert_eq!(
        Some(Timestamp::from((1900, 3, 1))),
        Timestamp::from_timespec(Timespec::new(-2203891200, 0)),
    );
    assert_eq!(
        Some(Timestamp::from((2100, 12, 31, 23, 59, 59))),
        Timestamp::from_timespec(Timespec::new(4133980799, 0)),
    );
}

#[test]
fn from_timespec_and_to_timespec_agree() {
    let mut sec: i64 = -5_000_000_000;
    while sec < 5_000_000_000 {
        let t = Timestamp::from_timespec(Timespec::new(sec, 0)).unwrap();
        assert_eq!(sec, t.to_timespec().sec);
        assert!(1 <= t.month && t.month <= 12 && 1 <= t.day && t.day <= 31);
        sec += 86_399 * 37;
    }
}

#[test]
fn from_timespec_covers_the_seconds_between_first_and_last() {
    assert!(Timestamp::from_timespec(Timespec::new(FIRST_SECOND, 0)).is_some());
    assert!(Timestamp::from_timespec(Timespec::new(LAST_SECOND, 0)).is_some());
    assert_eq!(None, Timestamp::from_timespec(Timespec::new(FIRST_SECOND - 1, 0)));
    assert_eq!(None, Timestamp::from_timespec(Timespec::new(LAST_SECOND + 1, 0)));
    let last = Timestamp::from_timespec(Timespec::new(LAST_SECOND, 0)).unwrap();
    assert_eq!(LAST_SECOND, last.to_timespec().sec);
}

#[test]
fn timespec_orders_by_seconds_then_nanoseconds() {
    let a = Timespec::new(1, 5);
    let b = Timespec::new(1, 6);
    let c = Timespec::new(2, 0);
    assert!(a.earlier_than(&b) && b.earlier_than(&c) && !b.earlier_than(&a));
    assert!(!a.earlier_than(&a));
    assert_eq!(c, a.max(c));
    assert_eq!(b, b.max(a));
    assert!(a < b && b < c);
}

#[test]
fn timespec_from_offset_counts_below_zero_before_the_epoch() {
    assert_eq!(Timespec::new(5, 7), timespec_from_offset(Ok((5, 7))));
    assert_eq!(Timespec::new(-5, -7), timespec_from_offset(Err((5, 7))));
    assert_eq!(Timespec::new(0, 0), timespec_from_offset(Err((0, 0))));
    assert_eq!(Timespec::new(-1, 0), timespec_from_offset(Ok((u64::MAX, 0))));
}

#[test]
fn system_time_to_timespec_reads_both_sides_of_the_epoch() {
    let after = UNIX_EPOCH + Duration::new(946684800, 12);
    assert_eq!(Timespec::new(946684800, 12), system_time_to_timespec(after));
    let before = UNIX_EPOCH - Duration::new(3, 4);
    assert_eq!(Timespec::new(-3, -4), system_time_to_timespec(before));
}

#[test]
fn timestamp_of_a_file_falls_back_on_now() {
    let now = SystemTime::now();
    let modified = UNIX_EPOCH + Duration::new(1, 0);
    assert_eq!(modified, timestamp(Some(modified), now));
    assert_eq!(now, timestamp(None, now));
}

#[test]
fn parse_timestamp_reads_the_format_of_picture_metadata() {
    assert_eq!(
        Some(Timestamp::from((2003, 12, 14, 12, 1, 44))),
        parse_timestamp("2003:12:14 12:01:44", "%Y:%m:%d %H:%M:%S"),
    );
    assert_eq!(None, parse_timestamp("2003-12-14 12:01:44", "%Y:%m:%d %H:%M:%S"));
    assert_eq!(None, parse_timestamp("", "%Y:%m:%d %H:%M:%S"));
    assert_eq!(None, parse_timestamp("2003:13:14 12:01:44", "%Y:%m:%d %H:%M:%S"));
}

#[test]
fn timestamp_from_fields_counts_months_from_zero_and_years_from_1900() {
    assert_eq!(
        Some(Timestamp::from((2000, 1, 2, 3, 4, 5))),
        timestamp_from_fields((5, 4, 3, 2, 0, 100)),
    );
    assert_eq!(None, timestamp_from_fields((0, 0, 0, 1, 0, i32::MAX)));
    assert_eq!(None, timestamp_from_fields((0, 0, 0, 1, i32::MAX, 0)));
}

#[test]
fn from_system_time_gives_the_civil_time() {
    assert_eq!(
        Some(Timestamp::from((2000, 1, 1, 0, 0, 1))),
        Timestamp::from_system_time(UNIX_EPOCH + Duration::new(946684801, 5)),
    );
    assert_eq!(
        Some(Timestamp::from((1969, 12, 31, 23, 59, 57))),
        Timestamp::from_system_time(UNIX_EPOCH - Duration::new(3, 0)),
    );
}

#[test]
fn a_civil_timestamp_is_the_only_one_of_its_second() {
    // Each second of a few days around the end of a leap February.
    let mut seen: Option<Timestamp> = None;
    let start = Timestamp::from((2000, 2, 28)).to_timespec().sec;
    for sec in start..start + 3 * 86_400 {
        let t = Timestamp::from_timespec(Timespec::new(sec, 0)).unwrap();
        if let Some(before) = seen {
            assert_ne!(before, t);
            assert!(
                (before.year, before.month, before.day, before.hour, before.minute, before.second)
                    < (t.year, t.month, t.day, t.hour, t.minute, t.second)
            );
        }
        seen = Some(t);
    }
    assert_eq!(Some(Timestamp::from((2000, 3, 1, 23, 59, 59))), seen);
}

#[test]
fn a_format_is_plain_where_it_asks_for_date_and_time_of_day_only() {
    assert!(plain_format("%Y:%m:%d %H:%M:%S"));
    assert!(plain_format(""));
    assert!(plain_format("no directive"));
    assert!(plain_format("%Y%m"));
    assert!(!plain_format("%s"));
    assert!(!plain_format("%C%C"));
    assert!(!plain_format("%Y-%m-%d %Z"));
    assert!(!plain_format("%%"));
    assert!(!plain_format("%"));
    assert!(!plain_format("%Y%"));
    assert!(!plain_format("%é"));
}

#[test]
fn parse_timestamp_reads_nothing_under_a_format_that_is_not_plain() {
    assert_eq!(None, parse_timestamp("999999999999999999", "%s"));
    assert_eq!(None, parse_timestamp("2020", "%C%C"));
    assert_eq!(None, parse_timestamp("0", "%s"));
    assert_eq!(None, parse_timestamp("2003%", "%Y%%"));
    assert_eq!(
        Some(Timestamp::from((2003, 1, 0, 0, 0, 0))),
        parse_timestamp("2003 and more", "%Y"),
    );
    assert_eq!(
        Some(Timestamp::from((1900, 12, 14, 0, 0, 0))),
        parse_timestamp("14/12", "%d/%m"),
    );
}
