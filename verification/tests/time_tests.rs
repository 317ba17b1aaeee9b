use streaks::time::{MAX_SECS, MIN_SECS};
use streaks::{TimeError, Timestamp};

#[test]
fn a_timestamp_holds_what_it_was_made_of() {
    let t = Timestamp::new(1_704_103_200, 250, -18_000).unwrap();
    assert_eq!(t.secs(), 1_704_103_200);
    assert_eq!(t.nanos(), 250);
    assert_eq!(t.offset(), -18_000);
}

#[test]
fn seconds_out_of_range_make_no_timestamp() {
    assert!(Timestamp::new(MIN_SECS, 0, 0).is_some());
    assert!(Timestamp::new(MAX_SECS, 0, 0).is_some());
    assert!(Timestamp::new(MIN_SECS - 1, 0, 0).is_none());
    assert!(Timestamp::new(MAX_SECS + 1, 0, 0).is_none());
    assert!(Timestamp::new(i64::MAX, 0, 0).is_none());
    assert!(Timestamp::new(i64::MIN, 0, 0).is_none());
}

#[test]
fn the_range_is_that_of_chrono() {
    assert_eq!(chrono::DateTime::<chrono::Utc>::MIN_UTC.timestamp(), MIN_SECS);
    assert_eq!(chrono::DateTime::<chrono::Utc>::MAX_UTC.timestamp(), MAX_SECS);
    assert!(chrono::DateTime::from_timestamp(MIN_SECS - 1, 0).is_none());
    assert!(chrono::DateTime::from_timestamp(MAX_SECS + 1, 0).is_none());
}

#[test]
fn an_offset_of_a_day_or_more_makes_no_timestamp() {
    assert!(Timestamp::new(0, 0, 86_399).is_some());
    assert!(Timestamp::new(0, 0, -86_399).is_some());
    assert!(Timestamp::new(0, 0, 86_400).is_none());
    assert!(Timestamp::new(0, 0, -86_400).is_none());
}

#[test]
fn a_leap_second_is_the_last_second_of_a_minute() {
    assert!(Timestamp::new(59, 1_000_000_000, 0).is_some());
    assert!(Timestamp::new(59, 1_999_999_999, 0).is_some());
    assert!(Timestamp::new(59, 2_000_000_000, 0).is_none());
    assert!(Timestamp::new(58, 1_000_000_000, 0).is_none());
    assert!(Timestamp::new(0, 1_000_000_000, 0).is_none());
    assert!(Timestamp::new(-1, 1_000_000_000, 0).is_some());
    assert!(Timestamp::new(-2, 1_000_000_000, 0).is_none());
    assert!(Timestamp::new(0, 999_999_999, 0).is_some());
}

#[test]
fn the_first_day_of_1970_is_day_719163() {
    assert_eq!(Timestamp::new(0, 0, 0).unwrap().days_from_ce(), 719_163);
    assert_eq!(Timestamp::new(86_399, 0, 0).unwrap().days_from_ce(), 719_163);
    assert_eq!(Timestamp::new(86_400, 0, 0).unwrap().days_from_ce(), 719_164);
    assert_eq!(Timestamp::new(-1, 0, 0).unwrap().days_from_ce(), 719_162);
}

#[test]
fn the_day_is_that_of_the_wall_clock() {
    // 23:00 UTC is the next day one hour to the east
    assert_eq!(Timestamp::new(82_800, 0, 0).unwrap().days_from_ce(), 719_163);
    assert_eq!(Timestamp::new(82_800, 0, 3_600).unwrap().days_from_ce(), 719_164);
    // 00:30 UTC is the day before one hour to the west
    assert_eq!(Timestamp::new(1_800, 0, -3_600).unwrap().days_from_ce(), 719_162);
}

#[test]
fn the_day_holds_at_the_ends_of_the_range() {
    assert_eq!(Timestamp::new(MIN_SECS, 0, 0).unwrap().days_from_ce(), -95_746_129);
    assert_eq!(Timestamp::new(MAX_SECS, 0, 0).unwrap().days_from_ce(), 95_745_399);
    assert_eq!(Timestamp::new(MIN_SECS, 0, -86_399).unwrap().days_from_ce(), -95_746_130);
    assert_eq!(Timestamp::new(MAX_SECS, 0, 86_399).unwrap().days_from_ce(), 95_745_400);
}

#[test]
fn a_timestamp_is_written_as_date_time_and_offset() {
    assert_eq!(Timestamp::new(0, 0, 0).unwrap().to_text(), "1970-01-01 00:00:00 +00:00");
    assert_eq!(
        Timestamp::new(1_704_103_200, 0, 3_600).unwrap().to_text(),
        "2024-01-01 11:00:00 +01:00"
    );
    assert_eq!(
        Timestamp::new(1_704_103_200, 0, -19_800).unwrap().to_text(),
        "2024-01-01 04:30:00 -05:30"
    );
}

#[test]
fn the_fraction_of_a_second_is_written_where_there_is_one() {
    assert_eq!(
        Timestamp::new(0, 500_000_000, 0).unwrap().to_text(),
        "1970-01-01 00:00:00.500 +00:00"
    );
    assert_eq!(
        Timestamp::new(0, 123_456_789, 0).unwrap().to_text(),
        "1970-01-01 00:00:00.123456789 +00:00"
    );
}

#[test]
fn a_timestamp_is_read_from_its_text() {
    let t = Timestamp::from_text("2024-01-01 11:00:00 +01:00").unwrap();
    assert_eq!(t, Timestamp::new(1_704_103_200, 0, 3_600).unwrap());
    let t = Timestamp::from_text("2024-01-01T10:00:00.25Z").unwrap();
    assert_eq!(t, Timestamp::new(1_704_103_200, 250_000_000, 0).unwrap());
}

#[test]
fn a_timestamp_keeps_the_offset_it_was_written_with() {
    let t = Timestamp::from_text("2024-03-10 23:30:00 -08:00").unwrap();
    assert_eq!(t.offset(), -28_800);
    assert_eq!(t.to_text(), "2024-03-10 23:30:00 -08:00");
}

#[test]
fn written_timestamps_are_read_back() {
    for (secs, nanos, offset) in [
        (0i64, 0u32, 0i32),
        (1_704_103_200, 0, 3_600),
        (1_704_103_200, 123_456_789, -19_800),
        (1_704_103_200, 120_000_000, 34_200),
        (-1, 999_999_999, 0),
        (951_782_400, 0, 0),
        (59, 1_500_000_000, 0),
    ] {
        let t = Timestamp::new(secs, nanos, offset).unwrap();
        assert_eq!(Timestamp::from_text(&t.to_text()), Ok(t));
    }
}

#[test]
fn a_text_that_is_no_date_is_unreadable() {
    assert!(matches!(Timestamp::from_text(""), Err(TimeError::Unreadable(_))));
    assert!(matches!(Timestamp::from_text("yesterday"), Err(TimeError::Unreadable(_))));
    assert!(matches!(Timestamp::from_text("2024-01-01"), Err(TimeError::Unreadable(_))));
    assert!(matches!(
        Timestamp::from_text("2024-13-01 10:00:00 +00:00"),
        Err(TimeError::Unreadable(_))
    ));
    assert!(matches!(
        Timestamp::from_text("2024-01-01 10:00:00 +00:00 x"),
        Err(TimeError::Unreadable(_))
    ));
}

#[test]
fn the_error_of_an_unreadable_text_is_that_of_chrono() {
    let expected = "yesterday".parse::<chrono::DateTime<chrono::FixedOffset>>().unwrap_err();
    assert_eq!(Timestamp::from_text("yesterday"), Err(TimeError::Unreadable(expected)));
}

#[test]
fn a_moment_that_is_read_is_checked() {
    assert_eq!(Timestamp::from_read(Ok((i64::MAX, 0, 0))), Err(TimeError::OutOfRange));
    assert_eq!(Timestamp::from_read(Ok((0, 2_000_000_000, 0))), Err(TimeError::OutOfRange));
    assert_eq!(Timestamp::from_read(Ok((0, 0, 90_000))), Err(TimeError::OutOfRange));
    assert_eq!(Timestamp::from_read(Ok((5, 6, 7))), Ok(Timestamp::new(5, 6, 7).unwrap()));
}

#[test]
fn timestamps_at_the_ends_of_the_range_are_written() {
    assert_eq!(
        Timestamp::new(MAX_SECS, 999_999_999, 0).unwrap().to_text(),
        "+262142-12-31 23:59:59.999999999 +00:00"
    );
    assert_eq!(
        Timestamp::new(MIN_SECS, 0, 0).unwrap().to_text(),
        "-262143-01-01 00:00:00 +00:00"
    );
    assert_eq!(
        Timestamp::new(MAX_SECS, 0, 86_399).unwrap().to_text(),
        "+262143-01-01 23:59:58 +23:59:59"
    );
    assert_eq!(
        Timestamp::new(MIN_SECS, 0, -86_399).unwrap().to_text(),
        "-262144-12-31 00:00:01 -23:59:59"
    );
}

#[test]
fn an_offset_with_seconds_is_written_but_not_read_back() {
    let t = Timestamp::new(0, 0, 1_172).unwrap();
    assert_eq!(t.to_text(), "1970-01-01 00:19:32 +00:19:32");
    assert!(Timestamp::from_text(&t.to_text()).is_err());
}
