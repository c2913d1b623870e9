use irzean::date::{DateParseError, DateTriple, DateTripleVisitor, RealDateTime};
use irzean::err::Error;
use irzean::text::NumberError;

fn d(year: u16, month: u8, day: u8) -> DateTriple {
    DateTriple { year, month, day }
}

#[test]
fn parses_a_plain_date() {
    assert_eq!(DateTriple::from_str("2024-01-05"), Ok(d(2024, 1, 5)));
    assert_eq!(DateTriple::from_str("2024-1-5"), Ok(d(2024, 1, 5)));
    assert_eq!(DateTriple::from_str("+2024-+1-05"), Ok(d(2024, 1, 5)));
    assert_eq!(DateTriple::from_str("0-0-0"), Ok(d(0, 0, 0)));
}

#[test]
fn rejects_texts_that_are_not_triples() {
    assert_eq!(DateTriple::from_str(""), Err(DateParseError::NotATriple));
    assert_eq!(DateTriple::from_str("2024-01"), Err(DateParseError::NotATriple));
    assert_eq!(DateTriple::from_str("2024-01-05-1"), Err(DateParseError::NotATriple));
    assert_eq!(DateTriple::from_str("-2024-01-05"), Err(DateParseError::NotATriple));
    assert_eq!(DateTriple::from_str("2024/01/05"), Err(DateParseError::NotATriple));
}

#[test]
fn reports_the_failing_part() {
    assert_eq!(DateTriple::from_str("70000-01-01"), Err(DateParseError::Year(NumberError::TooLarge)));
    assert_eq!(DateTriple::from_str("65535-01-01"), Ok(d(65535, 1, 1)));
    assert_eq!(DateTriple::from_str("2024-256-01"), Err(DateParseError::Month(NumberError::TooLarge)));
    assert_eq!(DateTriple::from_str("2024-ab-01"), Err(DateParseError::Month(NumberError::InvalidDigit)));
    assert_eq!(DateTriple::from_str("2024--01"), Err(DateParseError::Month(NumberError::Empty)));
    assert_eq!(DateTriple::from_str("2024-01-+"), Err(DateParseError::Day(NumberError::InvalidDigit)));
    assert_eq!(DateTriple::from_str("2024-01- 5"), Err(DateParseError::Day(NumberError::InvalidDigit)));
    assert_eq!(DateTriple::from_str("x-999-y"), Err(DateParseError::Year(NumberError::InvalidDigit)));
    // the first bad character decides: overflow comes before the letter
    assert_eq!(DateTriple::from_str("2024-999x-01"), Err(DateParseError::Month(NumberError::TooLarge)));
    assert_eq!(DateTriple::from_str("2024-9x99-01"), Err(DateParseError::Month(NumberError::InvalidDigit)));
}

#[test]
fn formats_zero_padded() {
    assert_eq!(d(2024, 1, 5).to_string(), "2024-01-05");
    assert_eq!(d(5, 3, 9).to_string(), "0005-03-09");
    assert_eq!(d(12345, 12, 31).to_string(), "12345-12-31");
    assert_eq!(d(0, 0, 0).to_string(), "0000-00-00");
    assert_eq!(d(65535, 255, 255).to_string(), "65535-255-255");
}

#[test]
fn display_text_reads_back() {
    for date in [d(2024, 1, 5), d(0, 0, 0), d(65535, 255, 255), d(7, 10, 100), d(1999, 12, 31)] {
        assert_eq!(DateTriple::from_str(&date.to_string()), Ok(date));
    }
}

#[test]
fn visitor_reads_like_from_str() {
    let v = DateTripleVisitor;
    assert_eq!(v.visit_str("2023-06-30"), Ok(d(2023, 6, 30)));
    assert_eq!(v.visit_str("2023-06"), Err(DateParseError::NotATriple));
    assert_eq!(v.visit_str("2023-x-1"), Err(DateParseError::Month(NumberError::InvalidDigit)));
}

#[test]
fn orders_by_year_month_day() {
    assert!(d(2023, 12, 31).is_before(&d(2024, 1, 1)));
    assert!(d(2024, 1, 1).is_before(&d(2024, 1, 2)));
    assert!(d(2024, 1, 31).is_before(&d(2024, 2, 1)));
    assert!(!d(2024, 1, 1).is_before(&d(2024, 1, 1)));
    assert!(!d(2024, 2, 1).is_before(&d(2024, 1, 31)));
}

fn calendar_day(t: DateTriple) -> Result<DateTriple, String> {
    match t.into_real_datetime() {
        Ok(r) => Ok(r.date()),
        Err(Error::ComponentRange(n)) => Err(n),
        Err(e) => panic!("unexpected error {:?}", e),
    }
}

#[test]
fn real_datetimes_exist_on_the_calendar() {
    assert_eq!(calendar_day(d(2024, 2, 29)), Ok(d(2024, 2, 29)));
    assert_eq!(calendar_day(d(2000, 2, 29)), Ok(d(2000, 2, 29)));
    assert_eq!(calendar_day(d(2023, 2, 29)), Err("day".to_string()));
    assert_eq!(calendar_day(d(1900, 2, 29)), Err("day".to_string()));
    assert_eq!(calendar_day(d(2024, 4, 31)), Err("day".to_string()));
    assert_eq!(calendar_day(d(2024, 13, 1)), Err("month".to_string()));
    assert_eq!(calendar_day(d(2024, 0, 10)), Err("month".to_string()));
    assert_eq!(calendar_day(d(2024, 1, 0)), Err("day".to_string()));
    assert_eq!(calendar_day(d(10000, 1, 1)), Err("year".to_string()));
    assert_eq!(calendar_day(d(10000, 13, 40)), Err("month".to_string()));
    assert_eq!(calendar_day(d(10000, 2, 30)), Err("year".to_string()));
    assert_eq!(calendar_day(d(9999, 12, 31)), Ok(d(9999, 12, 31)));
    assert_eq!(calendar_day(d(0, 1, 1)), Ok(d(0, 1, 1)));
}

#[test]
fn real_datetimes_at_a_time_of_day() {
    let r = RealDateTime::new(d(2024, 3, 5), 12, 30, 0, 0).unwrap();
    assert_eq!(r.date(), d(2024, 3, 5));
    assert_eq!(r.rfc3339(), "2024-03-05T12:30:00Z");
    let r = RealDateTime::new(d(2024, 3, 5), 23, 59, 59, 500_000_000).unwrap();
    assert_eq!(r.rfc3339(), "2024-03-05T23:59:59.5Z");
    let r = RealDateTime::new(d(2024, 3, 5), 1, 2, 3, 4).unwrap();
    assert_eq!(r.rfc3339(), "2024-03-05T01:02:03.000000004Z");
    let r = RealDateTime::new(d(2024, 3, 5), 1, 2, 3, 120_000).unwrap();
    assert_eq!(r.rfc3339(), "2024-03-05T01:02:03.00012Z");
    let name = |r: Result<RealDateTime, Error>| match r {
        Err(Error::ComponentRange(n)) => n,
        _ => panic!("expected a range error"),
    };
    assert_eq!(name(RealDateTime::new(d(2024, 3, 5), 24, 0, 0, 0)), "hour");
    assert_eq!(name(RealDateTime::new(d(2024, 3, 5), 0, 60, 0, 0)), "minute");
    assert_eq!(name(RealDateTime::new(d(2024, 3, 5), 0, 0, 60, 0)), "second");
    assert_eq!(name(RealDateTime::new(d(2024, 3, 5), 0, 0, 0, 1_000_000_000)), "nanosecond");
    assert_eq!(name(RealDateTime::new(d(2024, 2, 30), 24, 0, 0, 0)), "day");
}

#[test]
fn rfc3339_of_midnight() {
    let r = d(2024, 1, 5).into_real_datetime().unwrap();
    assert_eq!(r.rfc3339(), "2024-01-05T00:00:00Z");
    let r = d(7, 3, 9).into_real_datetime().unwrap();
    assert_eq!(r.rfc3339(), "0007-03-09T00:00:00Z");
}
