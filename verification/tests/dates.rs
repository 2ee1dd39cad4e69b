use dhcpd_parser::common::Date;
use dhcpd_parser::common::ParseError;

fn from(w: &str, d: &str, t: &str) -> Result<Date, ParseError> {
    Date::from(w.to_string(), d.to_string(), t.to_string())
}

#[test]
fn date_from_in_range_succeeds() {
    let d = from("0", "2019/03/01", "00:00:00").unwrap();
    assert_eq!(d.weekday, 0);
    assert_eq!(d.year, 2019);
    assert_eq!(d.month, 3);
    assert_eq!(d.day, 1);
    assert_eq!(d.hour, 0);
    assert_eq!(d.minute, 0);
    assert_eq!(d.second, 0);

    let d = from("6", "1999/12/31", "23:59:59").unwrap();
    assert_eq!(d.weekday, 6);
    assert_eq!(d.hour, 23);
    assert_eq!(d.minute, 59);
    assert_eq!(d.second, 59);
}

#[test]
fn date_from_is_permissive_about_month_and_day() {
    // No upper bound on month or day, by design.
    let d = from("1", "2019/13/40", "12:00:00").unwrap();
    assert_eq!(d.month, 13);
    assert_eq!(d.day, 40);
}

#[test]
fn date_from_accepts_a_signed_year() {
    // Fields parse like machine integers: an optional sign, then digits.
    // The year has no range constraint at all.
    let d = from("2", "-2019/13/40", "12:00:00").unwrap();
    assert_eq!(d.year, -2019);
    assert_eq!(d.month, 13);
    assert_eq!(d.to_string(), "Tuesday -2019/13/40 12:00:00");

    let d = from("+2", "+2019/01/01", "00:00:00").unwrap();
    assert_eq!(d.weekday, 2);
    assert_eq!(d.year, 2019);

    // Signed values outside the ranges still fail them.
    assert!(from("-1", "2019/01/01", "00:00:00").is_err());
    assert!(from("2", "2019/-1/01", "00:00:00").is_err());
    assert!(from("2", "2019/01/-5", "00:00:00").is_err());
    assert!(from("2", "2019/01/01", "-1:00:00").is_err());
    // A sign alone is not a number.
    assert!(from("-", "2019/01/01", "00:00:00").is_err());
}

#[test]
fn date_from_rejects_out_of_range_fields() {
    assert!(from("7", "2019/01/01", "00:00:00").is_err());
    assert!(from("2", "2019/01/01", "24:00:00").is_err());
    assert!(from("2", "2019/01/01", "00:60:00").is_err());
    assert!(from("2", "2019/01/01", "00:00:60").is_err());
    assert!(from("2", "2019/00/01", "00:00:00").is_err());
    assert!(from("2", "2019/01/00", "00:00:00").is_err());
}

#[test]
fn date_from_rejects_wrong_field_counts() {
    assert!(from("2", "2019/01", "00:00:00").is_err());
    assert!(from("2", "2019/01/01/05", "00:00:00").is_err());
    assert!(from("2", "2019-01-01", "00:00:00").is_err());
    assert!(from("2", "2019/01/01", "00:00").is_err());
    assert!(from("2", "2019/01/01", "00:00:00:00").is_err());
}

#[test]
fn date_from_rejects_non_numeric_fields() {
    assert!(from("x", "2019/01/01", "00:00:00").is_err());
    assert!(from("2", "year/01/01", "00:00:00").is_err());
    assert!(from("2", "2019/01/01", "aa:00:00").is_err());
    assert!(from("", "2019/01/01", "00:00:00").is_err());
    assert!(from("2", "2019//01", "00:00:00").is_err());
}

#[test]
fn date_from_error_names_the_offending_part() {
    match from("9", "2019/01/01", "00:00:00") {
        Err(ParseError::InvalidDateFormat(s)) => assert_eq!(s, "9"),
        other => panic!("unexpected result: {:?}", other),
    }
    match from("1", "2019/x/01", "00:00:00") {
        Err(ParseError::InvalidDateFormat(s)) => assert_eq!(s, "2019/x/01"),
        other => panic!("unexpected result: {:?}", other),
    }
    match from("1", "2019/01/01", "25:00:00") {
        Err(ParseError::InvalidDateFormat(s)) => assert_eq!(s, "25:00:00"),
        other => panic!("unexpected result: {:?}", other),
    }
}

#[test]
fn date_rendering_is_exact_and_reproducible() {
    let d = from("1", "1985/01/01", "00:00:00").unwrap();
    assert_eq!(d.to_string(), "Monday 1985/01/01 00:00:00");
    assert_eq!(d.to_string(), "Monday 1985/01/01 00:00:00");

    let d = from("6", "2019/11/09", "05:07:09").unwrap();
    assert_eq!(d.to_string(), "Saturday 2019/11/09 05:07:09");
}

#[test]
fn date_rendering_marks_invalid_weekday() {
    let d = Date {
        weekday: 9,
        year: 2000,
        month: 2,
        day: 3,
        hour: 4,
        minute: 5,
        second: 6,
    };
    assert_eq!(d.to_string(), "Not a valid weekday 2000/02/03 04:05:06");
}

#[test]
fn date_new_is_the_epoch() {
    let d = Date::new();
    assert_eq!(d.weekday, 0);
    assert_eq!(d.year, 1970);
    assert_eq!(d.month, 1);
    assert_eq!(d.day, 1);
    assert_eq!(d.hour, 0);
    assert_eq!(d.minute, 0);
    assert_eq!(d.second, 0);
    assert_eq!(d.to_string(), "Sunday 1970/01/01 00:00:00");
}

#[test]
fn date_operators_follow_the_six_field_order() {
    let a = from("1", "2019/01/01", "22:00:00").unwrap();
    let b = from("5", "2019/01/01", "22:00:00").unwrap();
    assert_eq!(a.partial_cmp(&b), Some(std::cmp::Ordering::Equal));
    let c = from("1", "2019/01/02", "00:00:00").unwrap();
    assert!(a < c);
    assert!(c > a);
    assert!(!(a < b));
    assert!(a <= b && b <= a);
}

#[test]
fn date_ordering_ignores_weekday() {
    let a = from("1", "2019/01/01", "22:00:00").unwrap();
    let b = from("5", "2019/01/01", "22:00:00").unwrap();
    // Same six numeric fields: each is at or before the other.
    assert!(a.le(&b));
    assert!(b.le(&a));
    // Still distinct records in full structural equality.
    assert_ne!(a, b);

    let c = from("1", "2019/01/01", "22:00:01").unwrap();
    assert!(a.le(&c));
    assert!(!c.le(&a));
}
