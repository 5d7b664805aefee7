use ports_box::clock::Clock;

#[test]
fn hours_are_local() {
    let utc = Clock::with_offset(0);
    assert_eq!(utc.current_hour_id(0), 0);
    assert_eq!(utc.current_hour_id(3599), 0);
    assert_eq!(utc.current_hour_id(3600), 1);
    assert_eq!(utc.current_hour_id(-1), -1);
    // Half an hour ahead of UTC the hour turns half an hour earlier.
    let ahead = Clock::with_offset(1800);
    assert_eq!(ahead.local_now(1800), 3600);
    assert_eq!(ahead.current_hour_id(1799), 0);
    assert_eq!(ahead.current_hour_id(1800), 1);
    let behind = Clock::with_offset(-18000);
    assert_eq!(behind.current_hour_id(3600), -4);
}

#[test]
fn seconds_to_the_next_hour() {
    let utc = Clock::with_offset(0);
    assert_eq!(utc.secs_until_next_hour(0), 3600);
    assert_eq!(utc.secs_until_next_hour(1), 3599);
    assert_eq!(utc.secs_until_next_hour(3599), 1);
    assert_eq!(utc.secs_until_next_hour(-1), 1);
    let ahead = Clock::with_offset(1800);
    assert_eq!(ahead.secs_until_next_hour(0), 1800);
}

#[test]
fn the_hour_turns_on_time() {
    let clock = Clock::with_offset(19800);
    for unix in [0, 1, 1799, 1800, 1801, 1_700_000_000] {
        let left = clock.secs_until_next_hour(unix) as i64;
        let hour = clock.current_hour_id(unix);
        assert_eq!(clock.current_hour_id(unix + left - 1), hour);
        assert_eq!(clock.current_hour_id(unix + left), hour + 1);
    }
}

#[test]
fn machine_offset_is_that_of_chrono() {
    let offset = chrono::Local::now().offset().local_minus_utc() as i64;
    let clock = Clock::new();
    assert_eq!(clock.local_now(0), offset);
    let mut other = Clock::with_offset(12345);
    other.refresh_offset();
    assert_eq!(other.local_now(0), offset);
}
