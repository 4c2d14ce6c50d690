use sprint_balance::date::{date_range, Date};

#[test]
fn parse_canonical_date() {
    let d = Date::parse("2024-02-14").unwrap();
    assert_eq!(d.year(), 2024);
    assert_eq!(d.month(), 2);
    assert_eq!(d.day(), 14);
}

#[test]
fn parse_rejects_malformed_dates() {
    assert!(Date::parse("2024-2-14").is_err());
    assert!(Date::parse("2024-02-14x").is_err());
    assert!(Date::parse("2024/02/14").is_err());
    assert!(Date::parse("2024-13-01").is_err());
    assert!(Date::parse("2024-02-30").is_err());
    assert!(Date::parse("2023-02-29").is_err());
    assert!(Date::parse("").is_err());
}

#[test]
fn leap_years_have_february_29() {
    assert!(Date::parse("2024-02-29").is_ok());
    assert!(Date::parse("2000-02-29").is_ok());
    assert!(Date::parse("1900-02-29").is_err());
}

#[test]
fn render_is_zero_padded() {
    let d = Date::from_ymd(33, 2, 3).unwrap();
    assert_eq!(d.render(), "0033-02-03");
    assert_eq!(Date::parse("2024-12-31").unwrap().render(), "2024-12-31");
}

#[test]
fn next_steps_days_months_and_years() {
    let next = |t: &str| Date::parse(t).unwrap().next().unwrap().render();
    assert_eq!(next("2024-02-14"), "2024-02-15");
    assert_eq!(next("2024-02-29"), "2024-03-01");
    assert_eq!(next("2023-02-28"), "2023-03-01");
    assert_eq!(next("2024-12-31"), "2025-01-01");
}

#[test]
fn previous_steps_days_months_and_years() {
    let previous = |t: &str| Date::parse(t).unwrap().previous().unwrap().render();
    assert_eq!(previous("2024-03-01"), "2024-02-29");
    assert_eq!(previous("2023-03-01"), "2023-02-28");
    assert_eq!(previous("2025-01-01"), "2024-12-31");
}

#[test]
fn ordering_is_total_and_calendar_wise() {
    let a = Date::parse("2024-02-14").unwrap();
    let b = Date::parse("2024-03-01").unwrap();
    let c = Date::parse("2023-12-31").unwrap();
    assert!(a.le(&b));
    assert!(!b.le(&a));
    assert!(c.le(&a));
    assert!(a.le(&a));
}

#[test]
fn date_range_is_inclusive_and_ascending() {
    let start = Date::parse("2024-02-26").unwrap();
    let end = Date::parse("2024-03-01").unwrap();
    let days = date_range(&start, &end);
    let rendered: Vec<String> = days.iter().map(|d| d.render()).collect();
    assert_eq!(
        rendered,
        vec!["2024-02-26", "2024-02-27", "2024-02-28", "2024-02-29", "2024-03-01"]
    );
}

#[test]
fn date_range_of_one_day_and_of_none() {
    let d = Date::parse("2024-02-14").unwrap();
    assert_eq!(date_range(&d, &d).len(), 1);
    let later = Date::parse("2024-02-15").unwrap();
    assert_eq!(date_range(&later, &d).len(), 0);
}
