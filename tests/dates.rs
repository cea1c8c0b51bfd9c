use chrono::Datelike;
use todo_rs::date::Date;
use todo_rs::error::Error;

fn local_today() -> Result<Date, Error> {
    let now = chrono::Local::now().date_naive();
    Date::from_date(now.year(), now.month(), now.day())
}

fn read_date(text: &str) -> Result<Date, Error> {
    Date::parse(text, local_today()?)
}

fn date(day: usize, month: usize, year: u16) -> Date {
    Date::new(day, month, year).unwrap()
}

#[test]
fn test_parsing() {
    let goal_1 = date(10, 12, 2025);

    let mut parsed = read_date("10/12/2025").unwrap();
    assert_eq!(parsed, goal_1);

    parsed = read_date("10-12-2025").unwrap();
    assert_eq!(parsed, goal_1);

    parsed = read_date("2025-12-10").unwrap();
    assert_eq!(parsed, goal_1);

    parsed = read_date("10/dec/2025").unwrap();
    assert_eq!(parsed, goal_1);

    parsed = read_date("10 December 2025").unwrap();
    assert_eq!(parsed, goal_1);

    let goal_2 = date(1, 12, 2025);

    parsed = read_date("December 2025").unwrap();
    assert_eq!(parsed, goal_2);

    let today = local_today().expect("Could not get the current date.");
    let goal_3 = Date { day: 5, month: 10, year: today.year + 1 };

    parsed = read_date("5 Oct").unwrap();
    assert_eq!(parsed, goal_3);

    let goal_4 = Date { day: today.day + 1, month: today.month, year: today.year };

    parsed = read_date("tomorrow").unwrap();
    assert_eq!(parsed, goal_4);
}

#[test]
fn leap_years() {
    assert!(Date::validate_month_length(2, 2024, 29));
    assert!(!Date::validate_month_length(2, 2023, 29));
    assert!(!Date::validate_month_length(2, 1900, 29));
    assert!(Date::validate_month_length(2, 2000, 29));
}

#[test]
fn month_lengths() {
    assert!(Date::validate_month_length(1, 2023, 31));
    assert!(!Date::validate_month_length(4, 2023, 31));
    assert!(Date::validate_month_length(4, 2023, 30));
    assert!(!Date::validate_month_length(13, 2023, 1));
    assert!(!Date::validate_month_length(0, 2023, 1));
    assert!(!Date::validate_month_length(5, 2023, 0));
    assert!(Date::new(31, 6, 2023).is_none());
}

#[test]
fn display_format() {
    assert_eq!(date(7, 3, 2026).display(), "7-Mar-2026");
    assert_eq!(date(25, 12, 1999).display(), "25-Dec-1999");
    assert_eq!(Date::month_to_short(1), "Jan");
}

#[test]
fn display_round_trip() {
    let today = date(19, 10, 2026);
    for d in [date(7, 3, 2026), date(29, 2, 2024), date(1, 1, 1000), date(31, 12, 9999)] {
        assert_eq!(Date::parse(&d.display(), today).unwrap(), d);
    }
}

#[test]
fn absolute_forms() {
    let today = date(19, 10, 2026);
    assert_eq!(Date::parse("3/7/2026", today).unwrap(), date(3, 7, 2026));
    assert_eq!(Date::parse("12/31/2025", today).unwrap(), date(31, 12, 2025));
    assert_eq!(Date::parse("2025/11/30", today).unwrap(), date(30, 11, 2025));
    assert_eq!(Date::parse("4-5-25", today).unwrap(), date(4, 5, 2025));
    assert_eq!(Date::parse("5 Oct", today).unwrap(), date(5, 10, 2027));
    assert_eq!(Date::parse("25 Oct", today).unwrap(), date(25, 10, 2026));
    assert_eq!(Date::parse("1st March 2030", today).unwrap(), date(1, 3, 2030));
    assert!(Date::parse("31/2/2025", today).is_err());
    assert!(Date::parse("not a date", today).is_err());
    assert!(Date::parse("1/2/3/4", today).is_err());
}

#[test]
fn month_numbers() {
    assert_eq!(Date::parse_month("12").unwrap(), 12);
    assert_eq!(Date::parse_month("2").unwrap(), 2);
    assert_eq!(Date::parse_month("SEPT").unwrap(), 9);
    assert_eq!(Date::parse_month("ju").unwrap(), 6);
    assert!(Date::parse_month("1").is_err());
    assert!(Date::parse_month("13").is_err());
    assert!(Date::parse_month("").is_err());
    assert!(Date::parse_month("smarch").is_err());
}

#[test]
fn relative_forms() {
    let today = date(19, 10, 2026);
    assert_eq!(Date::parse_relative_date("tomorrow", today).unwrap(), date(20, 10, 2026));
    assert_eq!(Date::parse_relative_date("in 13 days", today).unwrap(), date(1, 11, 2026));
    assert_eq!(Date::parse_relative_date("in 1 day", today).unwrap(), date(20, 10, 2026));
    assert_eq!(Date::parse_relative_date("next month", today).unwrap(), date(19, 11, 2026));
    assert_eq!(Date::parse_relative_date("in 4 months", today).unwrap(), date(19, 2, 2027));
    assert_eq!(Date::parse_relative_date("next year", today).unwrap(), date(19, 10, 2027));
    assert_eq!(Date::parse_relative_date("in 2 years", today).unwrap(), date(19, 10, 2028));
    assert_eq!(Date::parse_relative_date("march", today).unwrap(), date(1, 3, 2027));
    assert_eq!(Date::parse_relative_date("december", today).unwrap(), date(1, 12, 2026));
    assert!(Date::parse_relative_date("in many days", today).is_err());
    assert!(Date::parse_relative_date("yesterday", today).is_err());
}

#[test]
fn month_end_clamps() {
    let today = date(31, 1, 2026);
    assert_eq!(Date::parse_relative_date("next month", today).unwrap(), date(28, 2, 2026));
    let leap_day = date(29, 2, 2024);
    assert!(Date::parse_relative_date("next year", leap_day).is_err());
}

#[test]
fn weekdays() {
    // 19 October 2026 is a Monday.
    let today = date(19, 10, 2026);
    assert_eq!(Date::parse_relative_date("friday", today).unwrap(), date(23, 10, 2026));
    assert_eq!(Date::parse_relative_date("Mon", today).unwrap(), date(26, 10, 2026));
    assert_eq!(Date::parse_relative_date("next tue", today).unwrap(), date(27, 10, 2026));
    assert_eq!(Date::parse_relative_date("t", today).unwrap(), date(20, 10, 2026));
}

#[test]
fn distances() {
    let a = date(1, 1, 2014);
    assert_eq!(a.distance(date(23, 9, 2013)).unwrap(), 100);
    assert_eq!(a.distance(date(2, 1, 2014)).unwrap(), -1);
    assert_eq!(a.distance(a).unwrap(), 0);
}

#[test]
fn chrono_conversion() {
    assert_eq!(Date::from_date(2026, 3, 7).unwrap(), date(7, 3, 2026));
    assert!(Date::from_date(70000, 1, 1).is_err());
    assert!(Date::from_date(-5, 1, 1).is_err());
    assert!(Date::from_date(2023, 2, 29).is_err());
}
