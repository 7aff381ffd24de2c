use calendar_fast::date::{try_parse_date, try_parse_date_with_prefix, Date};
use std::cmp::Ordering;

fn date(year: u16, month: u8, day: u8) -> Date {
    Date { year, month, day }
}

#[test]
fn parses_a_plain_date() {
    assert_eq!(try_parse_date("2024-01-05").unwrap(), date(2024, 1, 5));
}

#[test]
fn parses_the_smallest_and_the_largest_date() {
    assert_eq!(try_parse_date("0001-01-01").unwrap(), date(1, 1, 1));
    assert_eq!(try_parse_date("9999-12-31").unwrap(), date(9999, 12, 31));
}

#[test]
fn accepts_a_day_that_the_month_does_not_have() {
    assert_eq!(try_parse_date("2023-02-31").unwrap(), date(2023, 2, 31));
}

#[test]
fn every_date_in_range_round_trips() {
    for year in [1u16, 9, 10, 99, 100, 999, 1000, 1999, 2024, 9999] {
        for month in 1u8..=12 {
            for day in 1u8..=31 {
                let token = format!("{:04}-{:02}-{:02}", year, month, day);
                assert_eq!(try_parse_date(&token).unwrap(), date(year, month, day), "{}", token);
            }
        }
    }
}

#[test]
fn rejects_a_wrong_length() {
    assert!(try_parse_date("").is_err());
    assert!(try_parse_date("2024-01-5").is_err());
    assert!(try_parse_date("2024-01-055").is_err());
    assert!(try_parse_date("02024-01-05").is_err());
    assert!(try_parse_date("2024-01-05 ").is_err());
}

#[test]
fn rejects_a_misplaced_separator() {
    assert!(try_parse_date("2024/01/05").is_err());
    assert!(try_parse_date("2024-01/05").is_err());
    assert!(try_parse_date("2024/01-05").is_err());
    assert!(try_parse_date("202-401-05").is_err());
    assert!(try_parse_date("20240-1-05").is_err());
    assert!(try_parse_date("2024-0105-").is_err());
}

#[test]
fn rejects_what_is_no_digit() {
    assert!(try_parse_date("20x4-01-05").is_err());
    assert!(try_parse_date("2024-0a-05").is_err());
    assert!(try_parse_date("2024-01-0b").is_err());
    assert!(try_parse_date("2024- 1-05").is_err());
    assert!(try_parse_date("+024-01-05").is_err());
    assert!(try_parse_date("2024-+1-05").is_err());
    assert!(try_parse_date("2024-01--5").is_err());
    assert!(try_parse_date("２024-01-05").is_err());
    assert!(try_parse_date("é24-01-05").is_err());
}

#[test]
fn rejects_fields_out_of_range() {
    assert!(try_parse_date("0000-01-05").is_err());
    assert!(try_parse_date("2024-00-05").is_err());
    assert!(try_parse_date("2024-13-05").is_err());
    assert!(try_parse_date("2024-01-00").is_err());
    assert!(try_parse_date("2024-01-32").is_err());
    assert!(try_parse_date("2024-99-99").is_err());
}

#[test]
fn a_rejected_token_is_quoted_in_the_message() {
    let e = try_parse_date("2024-13-05").unwrap_err();
    assert_eq!(e.message(), "could not parse date '2024-13-05'");
    let e = try_parse_date("").unwrap_err();
    assert_eq!(e.text, "could not parse date ''");
    let e = try_parse_date("soon, I'd say").unwrap_err();
    assert_eq!(e.text, "could not parse date 'soon, I'd say'");
}

#[test]
fn a_line_without_the_prefix_holds_no_date() {
    assert_eq!(try_parse_date_with_prefix("Hello", ":revdate: ").unwrap(), None);
    assert_eq!(try_parse_date_with_prefix("", ":revdate: ").unwrap(), None);
    assert_eq!(try_parse_date_with_prefix(":revdate:2024-01-05", ":revdate: ").unwrap(), None);
    assert_eq!(try_parse_date_with_prefix(" :revdate: 2024-01-05", ":revdate: ").unwrap(), None);
    assert_eq!(try_parse_date_with_prefix(":revdate:", ":revdate: ").unwrap(), None);
}

#[test]
fn a_line_with_the_prefix_holds_the_date_after_it() {
    assert_eq!(
        try_parse_date_with_prefix(":revdate: 2024-01-05", ":revdate: ").unwrap(),
        Some(date(2024, 1, 5))
    );
    assert_eq!(try_parse_date_with_prefix("2024-01-05", "").unwrap(), Some(date(2024, 1, 5)));
    assert_eq!(try_parse_date_with_prefix("é1999-12-31", "é").unwrap(), Some(date(1999, 12, 31)));
}

#[test]
fn a_line_with_the_prefix_and_no_date_is_an_error() {
    let e = try_parse_date_with_prefix(":revdate: today", ":revdate: ").unwrap_err();
    assert_eq!(e.text, "could not parse date 'today'");
    let e = try_parse_date_with_prefix(":revdate: 2024-01-05 draft", ":revdate: ").unwrap_err();
    assert_eq!(e.text, "could not parse date '2024-01-05 draft'");
    let e = try_parse_date_with_prefix(":revdate: ", ":revdate: ").unwrap_err();
    assert_eq!(e.text, "could not parse date ''");
}

#[test]
fn compare_goes_by_year_then_month_then_day() {
    assert_eq!(date(2024, 1, 5).compare(&date(2024, 1, 5)), Ordering::Equal);
    assert_eq!(date(2023, 12, 31).compare(&date(2024, 1, 1)), Ordering::Less);
    assert_eq!(date(2024, 1, 1).compare(&date(2023, 12, 31)), Ordering::Greater);
    assert_eq!(date(2024, 1, 31).compare(&date(2024, 2, 1)), Ordering::Less);
    assert_eq!(date(2024, 2, 1).compare(&date(2024, 1, 31)), Ordering::Greater);
    assert_eq!(date(2024, 2, 1).compare(&date(2024, 2, 2)), Ordering::Less);
    assert_eq!(date(2024, 2, 2).compare(&date(2024, 2, 1)), Ordering::Greater);
}

#[test]
fn compare_agrees_with_the_order_of_tuples() {
    let sample = [
        date(1, 1, 1),
        date(1, 1, 2),
        date(1, 2, 1),
        date(1, 12, 31),
        date(2, 1, 1),
        date(2023, 12, 31),
        date(2024, 1, 1),
        date(2024, 1, 31),
        date(2024, 2, 1),
        date(9999, 12, 31),
        date(65535, 12, 31),
    ];
    for a in sample {
        for b in sample {
            let expected = (a.year, a.month, a.day).cmp(&(b.year, b.month, b.day));
            assert_eq!(a.compare(&b), expected);
            assert_eq!(a.ge(&b), expected != Ordering::Less);
            assert_eq!(a.le(&b), expected != Ordering::Greater);
            assert_eq!(b.compare(&a), expected.reverse());
        }
    }
}

#[test]
fn compare_is_transitive_on_a_sample() {
    let sample = [date(2024, 3, 1), date(2024, 5, 1), date(2023, 5, 1), date(2024, 3, 2)];
    for a in sample {
        for b in sample {
            for c in sample {
                if a.compare(&b) != Ordering::Greater && b.compare(&c) != Ordering::Greater {
                    assert_ne!(a.compare(&c), Ordering::Greater);
                }
            }
        }
    }
}

#[test]
fn ge_and_le_include_the_date_itself() {
    let d = date(2024, 4, 1);
    assert!(d.ge(&d));
    assert!(d.le(&d));
    assert!(date(2024, 4, 2).ge(&d));
    assert!(!date(2024, 4, 2).le(&d));
    assert!(date(2024, 3, 31).le(&d));
    assert!(!date(2024, 3, 31).ge(&d));
    assert!(date(2025, 1, 1).ge(&date(2024, 12, 31)));
    assert!(date(2024, 12, 31).le(&date(2025, 1, 1)));
}
