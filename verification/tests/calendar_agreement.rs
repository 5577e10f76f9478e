//! Cross-checks of the crate's calendar arithmetic against chrono.

use borrow_analytics::calendar::{date_from_serial, iso_week_of, serial_of_date, Date};
use borrow_analytics::parse::date_of_text;
use chrono::{Datelike, Duration, NaiveDate};

#[test]
fn serial_dates_agree_with_chrono() {
    let epoch = NaiveDate::from_ymd_opt(1899, 12, 30).unwrap();
    let mut n: i64 = -10000;
    while n < 90000 {
        let ours = date_from_serial(n).unwrap();
        let theirs = epoch + Duration::days(n);
        assert_eq!(ours.year, theirs.year());
        assert_eq!(ours.month as u32, theirs.month());
        assert_eq!(ours.day as u32, theirs.day());
        assert_eq!(serial_of_date(&ours), n);
        n += 37;
    }
}

#[test]
fn iso_weeks_agree_with_chrono() {
    let epoch = NaiveDate::from_ymd_opt(1899, 12, 30).unwrap();
    let mut n: i64 = 30000;
    while n < 60000 {
        let ours = date_from_serial(n).unwrap();
        let w = iso_week_of(&ours);
        let theirs = (epoch + Duration::days(n)).iso_week();
        assert_eq!(w.year, theirs.year());
        assert_eq!(w.week as u32, theirs.week());
        n += 13;
    }
}

#[test]
fn text_dates_agree_with_chrono() {
    let mut n: i64 = 40000;
    while n < 50000 {
        let d = date_from_serial(n).unwrap();
        let text = format!("{}-{:02}-{:02}", d.year, d.month, d.day);
        let ours = date_of_text(&text).unwrap();
        let theirs = NaiveDate::parse_from_str(&text, "%Y-%m-%d").unwrap();
        assert_eq!(ours, Date { year: theirs.year(), month: theirs.month() as u8, day: theirs.day() as u8 });
        assert_eq!((ours.year, ours.month as u32, ours.day as u32), (d.year, d.month as u32, d.day as u32));
        n += 97;
    }
}
