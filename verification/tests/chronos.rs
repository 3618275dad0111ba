use pathseeker::chronos::{
    days_from_tick, hours_from_tick, years_from_tick, DAYS_PER_YEAR, HOURS_PER_DAY, TICKS_PER_HOUR,
};

/// When we go over
#[test]
fn wrap_around() {
    assert_eq!(hours_from_tick(TICKS_PER_HOUR + 1), 1);
}

#[test]
fn hours_wrap_at_the_end_of_a_day() {
    assert_eq!(hours_from_tick(0), 0);
    assert_eq!(hours_from_tick(TICKS_PER_HOUR - 1), 0);
    assert_eq!(hours_from_tick(TICKS_PER_HOUR * 23), 23);
    assert_eq!(hours_from_tick(TICKS_PER_HOUR * HOURS_PER_DAY), 0);
    assert_eq!(hours_from_tick(TICKS_PER_HOUR * HOURS_PER_DAY + 61), 1);
}

#[test]
fn days_wrap_at_the_end_of_a_year() {
    let day = TICKS_PER_HOUR * HOURS_PER_DAY;
    assert_eq!(days_from_tick(0), 0);
    assert_eq!(days_from_tick(day - 1), 0);
    assert_eq!(days_from_tick(day), 1);
    assert_eq!(days_from_tick(day * 29), 29);
    assert_eq!(days_from_tick(day * DAYS_PER_YEAR), 0);
}

#[test]
fn years_count_up() {
    let year = TICKS_PER_HOUR * HOURS_PER_DAY * DAYS_PER_YEAR;
    assert_eq!(year, 43200);
    assert_eq!(years_from_tick(0), 0);
    assert_eq!(years_from_tick(year - 1), 0);
    assert_eq!(years_from_tick(year), 1);
    assert_eq!(years_from_tick(u32::MAX), 99420);
}

#[test]
fn calendar_adds_up() {
    for tick in [0u32, 59, 60, 1439, 1440, 43199, 43200, 1_000_000, u32::MAX] {
        let hours = tick / TICKS_PER_HOUR;
        let rebuilt = (years_from_tick(tick) * DAYS_PER_YEAR + days_from_tick(tick))
            * HOURS_PER_DAY
            + hours_from_tick(tick);
        assert_eq!(rebuilt, hours);
    }
}
