use ffzf::datetime::{DateTime, DateTimeError, DateTimeString, DATE_TIME_TEXT_CAPACITY};

#[test]
fn date_time_keeps_its_milliseconds() {
    let d = DateTime::new(1648816496000);
    assert_eq!(d.timestamp_millis(), 1648816496000);
    assert_eq!(d.0, 1648816496000);
    assert!(d.eq_millis(&1648816496000));
    assert!(!d.eq_millis(&1648816496001));
    assert_eq!(DateTime::new(0).timestamp_millis(), 0);
    assert_eq!(DateTime::new(u64::MAX).timestamp_millis(), u64::MAX);
}

#[test]
fn date_time_defaults_to_the_epoch() {
    assert_eq!(DateTime::default().timestamp_millis(), 0);
}

#[test]
fn date_time_string_reads_rfc3339() {
    let d = DateTimeString::new("2022-04-01T12:34:56.000Z").unwrap();
    assert_eq!(d.timestamp_millis(), 1648816496000);
    assert_eq!(d.as_str(), "2022-04-01T12:34:56.000Z");
    assert!(d.eq_str("2022-04-01T12:34:56.000Z"));
    assert!(!d.eq_str("2022-04-01T12:34:56.001Z"));
    let d = DateTimeString::new("1970-01-01T00:00:01.500Z").unwrap();
    assert_eq!(d.timestamp_millis(), 1500);
    let d = DateTimeString::new("2001-09-09T01:46:40.555Z").unwrap();
    assert_eq!(d.timestamp_millis(), 1000000000555);
}

#[test]
fn date_time_string_refuses_what_is_no_date() {
    for text in ["", "not a date", "2022-04-01", "2022-13-01T00:00:00Z", "12:34:56"] {
        assert!(DateTimeString::fits(text));
        match DateTimeString::new(text) {
            Err(DateTimeError::Parse(e)) => {
                assert_eq!(e, chrono::DateTime::parse_from_rfc3339(text).unwrap_err());
            }
            Ok(_) => panic!("{text} was read as a date"),
        }
    }
}

#[test]
fn date_time_string_capacity_is_in_bytes() {
    assert_eq!(DATE_TIME_TEXT_CAPACITY, 24);
    assert!(DateTimeString::fits(""));
    assert!(DateTimeString::fits("2022-04-01T12:34:56.000Z"));
    assert!(!DateTimeString::fits("1996-12-19T16:39:57-08:00"));
    assert!(DateTimeString::fits(&"x".repeat(24)));
    assert!(!DateTimeString::fits(&"x".repeat(25)));
    // Twelve two-byte characters fit, thirteen do not.
    assert!(DateTimeString::fits(&"é".repeat(12)));
    assert!(!DateTimeString::fits(&"é".repeat(13)));
}

#[test]
fn date_time_string_from_parts_keeps_both() {
    let d = DateTimeString::from_parts("2022-04-01T12:34:56Z", 17);
    assert_eq!(d.as_str(), "2022-04-01T12:34:56Z");
    assert_eq!(d.timestamp_millis(), 17);
    let exact = "x".repeat(DATE_TIME_TEXT_CAPACITY);
    assert_eq!(DateTimeString::from_parts(&exact, -1).as_str(), exact);
    assert_eq!(DateTimeString::from_parts(&exact, -1).timestamp_millis(), -1);
}

#[test]
fn date_time_string_reads_whole_seconds() {
    let d = DateTimeString::new("2022-04-01T13:34:56Z").unwrap();
    assert_eq!(d.timestamp_millis(), 1648820096000);
    assert_eq!(d.as_str(), "2022-04-01T13:34:56Z");
}

#[test]
fn date_time_string_clone_is_equal() {
    let d = DateTimeString::new("2022-04-01T12:34:56.000Z").unwrap();
    let e = d.clone();
    assert_eq!(e.as_str(), d.as_str());
    assert_eq!(e.timestamp_millis(), d.timestamp_millis());
}
