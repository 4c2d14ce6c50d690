use sprint_balance::duration::TimeEstimate;

#[test]
fn empty_text_parses_to_zero() {
    let d = TimeEstimate::parse("").unwrap();
    assert_eq!(d.wide_secs(), 0);
}

#[test]
fn zero_renders_unsigned_even_when_signed_requested() {
    let d = TimeEstimate::parse("").unwrap();
    assert_eq!(d.render(true), "0:00");
    assert_eq!(d.render(false), "0:00");
}

#[test]
fn parse_hours_and_minutes() {
    assert_eq!(TimeEstimate::parse("2:00").unwrap().wide_secs(), 7200);
    assert_eq!(TimeEstimate::parse("9:05").unwrap().wide_secs(), 9 * 3600 + 5 * 60);
    assert_eq!(TimeEstimate::parse("0:45").unwrap().wide_secs(), 45 * 60);
}

#[test]
fn parse_bare_hours() {
    assert_eq!(TimeEstimate::parse("3").unwrap().wide_secs(), 3 * 3600);
}

#[test]
fn parse_negative_hours_offsets_minutes() {
    // hours * 60 + minutes: -1 hours and 30 minutes give -30 minutes
    assert_eq!(TimeEstimate::parse("-1:30").unwrap().wide_secs(), -1800);
}

#[test]
fn parse_ignores_segments_past_the_second() {
    assert_eq!(TimeEstimate::parse("1:30:59").unwrap().wide_secs(), 5400);
}

#[test]
fn parse_rejects_malformed_text() {
    assert!(TimeEstimate::parse("abc").is_err());
    assert!(TimeEstimate::parse("1:").is_err());
    assert!(TimeEstimate::parse(":30").is_err());
    assert!(TimeEstimate::parse("1:3x").is_err());
    assert!(TimeEstimate::parse("99999999999999999999:00").is_err());
}

#[test]
fn render_unsigned_drops_the_sign() {
    assert_eq!(TimeEstimate::from_secs(-5400).render(false), "1:30");
    assert_eq!(TimeEstimate::from_secs(5400).render(false), "1:30");
}

#[test]
fn render_signed_marks_both_signs() {
    assert_eq!(TimeEstimate::from_secs(5400).render(true), "+1:30");
    assert_eq!(TimeEstimate::from_secs(-5400).render(true), "-1:30");
}

#[test]
fn render_pads_minutes_not_hours() {
    assert_eq!(TimeEstimate::from_secs(5 * 60).render(false), "0:05");
    assert_eq!(TimeEstimate::from_secs(10 * 3600).render(false), "10:00");
    assert_eq!(TimeEstimate::from_secs(123 * 3600 + 7 * 60).render(false), "123:07");
}

#[test]
fn render_truncates_to_whole_minutes() {
    assert_eq!(TimeEstimate::from_secs(119).render(false), "0:01");
}

#[test]
fn round_trip_whole_minutes() {
    for mins in [0i64, 1, 59, 60, 61, 90, 600, 59999] {
        let d = TimeEstimate::from_secs(mins * 60);
        let text = d.render(false);
        assert_eq!(TimeEstimate::parse(&text).unwrap(), d);
    }
}

#[test]
fn round_trip_negative_gives_absolute_value() {
    let d = TimeEstimate::from_secs(-90 * 60);
    let text = d.render(false);
    assert_eq!(TimeEstimate::parse(&text).unwrap().wide_secs(), 90 * 60);
}

#[test]
fn canonical_text_round_trip() {
    for text in ["0:00", "9:05", "10:30", "123:59"] {
        let d = TimeEstimate::parse(text).unwrap();
        assert_eq!(d.render(false), text);
    }
}

#[test]
fn whole_minutes_matches_invariant() {
    let d = TimeEstimate::parse("2:45").unwrap();
    assert_eq!(d.whole_minutes(), 2 * 60 + 45);
}

#[test]
fn from_and_to_secs_round_trip() {
    let d = TimeEstimate::from_secs(12345);
    assert_eq!(d.to_secs(), 12345);
}
