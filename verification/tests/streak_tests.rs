use streaks::{NumberError, Streak, StreakError, StreakState, TimeError, Timestamp};

const NOON: i64 = 1_704_110_400; // 2024-01-01 12:00:00 UTC

fn moment(secs: i64) -> Timestamp {
    Timestamp::new(secs, 0, 0).unwrap()
}

fn streak_of(current: &str, max: &str, state: &str) -> Streak {
    Streak::deserialize(&[current, max, "2024-01-01 12:00:00 +00:00", state]).unwrap()
}

#[test]
fn a_new_streak_has_no_count() {
    let s = Streak::new(moment(NOON));
    assert_eq!(s.current_count(), 0);
    assert_eq!(s.max_count(), 0);
    assert_eq!(s.state(), StreakState::New);
    assert_eq!(s.last_hit(), moment(NOON));
}

#[test]
fn hitting_a_new_streak_starts_the_count() {
    let mut s = Streak::new(moment(NOON));
    assert_eq!(s.hit(moment(NOON + 60)), Some(1));
    assert_eq!(s.current_count(), 1);
    assert_eq!(s.max_count(), 1);
    assert_eq!(s.state(), StreakState::Done);
    assert_eq!(s.last_hit(), moment(NOON + 60));
}

#[test]
fn hitting_a_pending_streak_adds_one() {
    let mut s = streak_of("5", "9", "Pending");
    assert_eq!(s.hit(moment(NOON + 86_400)), Some(6));
    assert_eq!(s.current_count(), 6);
    assert_eq!(s.max_count(), 9);
    assert_eq!(s.state(), StreakState::Done);
    assert_eq!(s.last_hit(), moment(NOON + 86_400));
}

#[test]
fn hitting_a_pending_streak_raises_the_best_count() {
    let mut s = streak_of("5", "5", "Pending");
    assert_eq!(s.hit(moment(NOON)), Some(6));
    assert_eq!(s.max_count(), 6);
}

#[test]
fn hitting_an_expired_streak_starts_at_one() {
    let mut s = streak_of("0", "7", "Expired");
    assert_eq!(s.hit(moment(NOON + 5)), Some(1));
    assert_eq!(s.current_count(), 1);
    assert_eq!(s.max_count(), 7);
    assert_eq!(s.state(), StreakState::Done);
}

#[test]
fn hitting_an_expired_streak_forgets_the_old_count() {
    let mut s = streak_of("4", "7", "Expired");
    assert_eq!(s.hit(moment(NOON)), Some(1));
    assert_eq!(s.current_count(), 1);
    let mut s = streak_of("4", "7", "New");
    assert_eq!(s.hit(moment(NOON)), Some(1));
    assert_eq!(s.current_count(), 1);
}

#[test]
fn hitting_a_done_streak_changes_nothing() {
    let mut s = streak_of("6", "8", "Done");
    let before = s;
    assert_eq!(s.hit(moment(NOON + 3_600)), None);
    assert_eq!(s, before);
    assert_eq!(s.last_hit(), moment(NOON));
}

#[test]
fn no_day_passed_changes_nothing() {
    for state in ["Done", "Pending", "Expired", "New"] {
        let mut s = streak_of("6", "8", state);
        let before = s;
        assert!(!s.advance_day(0));
        assert_eq!(s, before);
    }
}

#[test]
fn one_day_passed_makes_a_streak_pending() {
    let mut s = streak_of("6", "8", "Done");
    assert!(!s.advance_day(1));
    assert_eq!(s.state(), StreakState::Pending);
    assert_eq!(s.current_count(), 6);
    assert_eq!(s.max_count(), 8);
    assert_eq!(s.last_hit(), moment(NOON));
}

#[test]
fn more_days_passed_expire_a_streak() {
    for days in [2, 3, 400, i32::MAX] {
        let mut s = streak_of("6", "8", "Done");
        assert!(!s.advance_day(days));
        assert_eq!(s.state(), StreakState::Expired);
        assert_eq!(s.current_count(), 0);
        assert_eq!(s.max_count(), 8);
        assert_eq!(s.last_hit(), moment(NOON));
    }
}

#[test]
fn a_clock_that_went_backwards_makes_a_streak_pending_at_zero() {
    for days in [-1, -30, i32::MIN] {
        let mut s = streak_of("6", "8", "Done");
        assert!(s.advance_day(days));
        assert_eq!(s.state(), StreakState::Pending);
        assert_eq!(s.current_count(), 0);
        assert_eq!(s.max_count(), 8);
    }
}

#[test]
fn update_count_raises_the_best_count_only() {
    let mut s = streak_of("3", "5", "Pending");
    s.update_count(4);
    assert_eq!((s.current_count(), s.max_count()), (4, 5));
    s.update_count(9);
    assert_eq!((s.current_count(), s.max_count()), (9, 9));
    s.update_count(0);
    assert_eq!((s.current_count(), s.max_count()), (0, 9));
}

#[test]
fn the_count_stays_within_the_best_count() {
    let mut s = Streak::new(moment(NOON));
    let mut day = 0;
    for step in [1, 1, 1, 3, 1, 0, -2, 1, 1] {
        day += step;
        s.advance_day(step);
        s.hit(moment(NOON + 86_400 * day as i64));
        assert!(s.current_count() <= s.max_count());
    }
    // three days in a row, then a gap, two days, a clock fault, three days
    assert_eq!(s.max_count(), 3);
    assert_eq!(s.current_count(), 3);
}

#[test]
fn a_streak_that_is_read_may_exceed_its_best_count() {
    let s = streak_of("5", "3", "Done");
    assert_eq!((s.current_count(), s.max_count()), (5, 3));
}

#[test]
fn states_are_written_as_words() {
    assert_eq!(StreakState::Done.serialize(), "Done");
    assert_eq!(StreakState::Pending.serialize(), "Pending");
    assert_eq!(StreakState::Expired.serialize(), "Expired");
    assert_eq!(StreakState::New.serialize(), "New");
}

#[test]
fn states_are_read_from_their_words() {
    assert_eq!(StreakState::deserialize("Done"), Ok(StreakState::Done));
    assert_eq!(StreakState::deserialize("Pending"), Ok(StreakState::Pending));
    assert_eq!(StreakState::deserialize("Expired"), Ok(StreakState::Expired));
    assert_eq!(StreakState::deserialize("New"), Ok(StreakState::New));
}

#[test]
fn other_words_are_no_states() {
    for word in ["", "done", "DONE", "Done ", " Done", "Nev", "Pendin", "Expiredd", "Dona"] {
        assert_eq!(StreakState::deserialize(word), Err(StreakError::State));
    }
}

#[test]
fn a_streak_is_written_as_four_values() {
    let mut s = Streak::new(Timestamp::new(NOON, 0, 7_200).unwrap());
    assert_eq!(s.serialize(), "0,0,2024-01-01 14:00:00 +02:00,New");
    s.hit(Timestamp::new(NOON + 86_400, 500_000_000, 7_200).unwrap());
    assert_eq!(s.serialize(), "1,1,2024-01-02 14:00:00.500 +02:00,Done");
}

#[test]
fn write_to_appends() {
    let s = streak_of("12", "40", "Expired");
    let mut out = String::from("gym,");
    s.write_to(&mut out);
    assert_eq!(out, "gym,12,40,2024-01-01 12:00:00 +00:00,Expired");
}

#[test]
fn a_streak_is_read_from_four_values() {
    let s = Streak::deserialize(&["12", "40", "2024-01-01 13:00:00 +01:00", "Pending"]).unwrap();
    assert_eq!(s.current_count(), 12);
    assert_eq!(s.max_count(), 40);
    assert_eq!(s.last_hit(), Timestamp::new(NOON, 0, 3_600).unwrap());
    assert_eq!(s.state(), StreakState::Pending);
}

#[test]
fn a_written_streak_is_read_back() {
    let mut s = Streak::new(Timestamp::new(NOON, 123_000, -3_600).unwrap());
    s.hit(Timestamp::new(NOON + 9, 123_000, -3_600).unwrap());
    let text = s.serialize();
    let values: Vec<&str> = text.split(',').collect();
    assert_eq!(Streak::deserialize(&values), Ok(s));
}

#[test]
fn other_than_four_values_are_no_streak() {
    assert_eq!(Streak::deserialize(&[]), Err(StreakError::FieldCount(0)));
    assert_eq!(Streak::deserialize(&["1", "2", "Done"]), Err(StreakError::FieldCount(3)));
    assert_eq!(
        Streak::deserialize(&["1", "2", "2024-01-01 12:00:00 +00:00", "Done", ""]),
        Err(StreakError::FieldCount(5))
    );
}

#[test]
fn a_count_that_is_no_number_is_no_streak() {
    let time = "2024-01-01 12:00:00 +00:00";
    assert_eq!(
        Streak::deserialize(&["x", "2", time, "Done"]),
        Err(StreakError::CurrentCount(NumberError::InvalidDigit))
    );
    assert_eq!(
        Streak::deserialize(&["", "2", time, "Done"]),
        Err(StreakError::CurrentCount(NumberError::Empty))
    );
    assert_eq!(
        Streak::deserialize(&["1", "4294967296", time, "Done"]),
        Err(StreakError::MaxCount(NumberError::TooLarge))
    );
    assert_eq!(
        Streak::deserialize(&["1", "-2", time, "Done"]),
        Err(StreakError::MaxCount(NumberError::InvalidDigit))
    );
}

#[test]
fn a_moment_that_is_no_timestamp_is_no_streak() {
    let read = Streak::deserialize(&["1", "2", "noon", "Done"]);
    assert!(matches!(read, Err(StreakError::LastHit(TimeError::Unreadable(_)))));
}

#[test]
fn a_state_that_is_no_word_is_no_streak() {
    let time = "2024-01-01 12:00:00 +00:00";
    assert_eq!(Streak::deserialize(&["1", "2", time, "Finished"]), Err(StreakError::State));
}

#[test]
fn the_first_value_that_fails_decides() {
    assert_eq!(
        Streak::deserialize(&["x", "y", "noon", "Finished"]),
        Err(StreakError::CurrentCount(NumberError::InvalidDigit))
    );
    assert_eq!(
        Streak::deserialize(&["1", "y", "noon", "Finished"]),
        Err(StreakError::MaxCount(NumberError::InvalidDigit))
    );
    assert!(matches!(
        Streak::deserialize(&["1", "2", "noon", "Finished"]),
        Err(StreakError::LastHit(_))
    ));
}
