use gtfs_heatmap_lib::gtfs_graph::calendar::{date_of_instant, weekday, ValidDays, SECONDS_IN_DAY};
use gtfs_heatmap_lib::gtfs_graph::Edge;
use gtfs_heatmap_lib::gtfs_types::Day;
use time::{Date, Month, OffsetDateTime, Time};

fn julian(year: i32, month: Month, day: u8) -> i64 {
    Date::from_calendar_date(year, month, day).unwrap().to_julian_day() as i64
}

fn unix(year: i32, month: Month, day: u8, hour: u8, minute: u8, second: u8) -> i64 {
    OffsetDateTime::new_utc(
        Date::from_calendar_date(year, month, day).unwrap(),
        Time::from_hms(hour, minute, second).unwrap(),
    )
    .unix_timestamp()
}

#[test]
fn gtfs_graph_to_datetime_midnight() {
    let date = julian(2003, Month::May, 16);
    let time = SECONDS_IN_DAY;

    let datetime = Edge::to_datetime(time, date);

    assert_eq!(datetime, unix(2003, Month::May, 17, 0, 0, 0));
}

#[test]
fn gtfs_graph_to_datetime_past_midnight() {
    let date = julian(2003, Month::May, 16);
    let time = SECONDS_IN_DAY + 120;

    let datetime = Edge::to_datetime(time, date);

    assert_eq!(datetime, unix(2003, Month::May, 17, 0, 2, 0));
}

#[test]
fn tests_to_datetime_midnight() {
    let date = julian(2003, Month::May, 16);
    let time = SECONDS_IN_DAY;

    let datetime = Edge::to_datetime(time, date);

    assert_eq!(datetime, unix(2003, Month::May, 17, 0, 0, 0));
}

#[test]
fn tests_to_datetime_past_midnight() {
    let date = julian(2003, Month::May, 16);
    let time = SECONDS_IN_DAY + 120;

    let datetime = Edge::to_datetime(time, date);

    assert_eq!(datetime, unix(2003, Month::May, 17, 0, 2, 0));
}

#[test]
fn to_datetime_within_the_day() {
    let date = julian(2024, Month::January, 1);
    assert_eq!(Edge::to_datetime(32_400, date), unix(2024, Month::January, 1, 9, 0, 0));
    assert_eq!(Edge::to_datetime(0, date), 1_704_067_200);
}

#[test]
fn to_datetime_two_days_over() {
    let date = julian(2024, Month::February, 28);
    assert_eq!(
        Edge::to_datetime(2 * SECONDS_IN_DAY + 61, date),
        unix(2024, Month::March, 1, 0, 1, 1)
    );
}

#[test]
fn to_datetime_before_the_epoch() {
    let date = julian(1969, Month::December, 31);
    assert_eq!(Edge::to_datetime(0, date), -86_400);
    assert_eq!(Edge::to_datetime(86_399, date), -1);
}

#[test]
fn weekday_agrees_with_the_calendar() {
    let mut date = Date::from_calendar_date(1969, Month::December, 20).unwrap();
    for _ in 0..800 {
        let expected = date.weekday().number_days_from_monday();
        assert_eq!(weekday(date.to_julian_day() as i64), expected);
        date = date.next_day().unwrap();
    }
    assert_eq!(weekday(julian(2024, Month::January, 1)), 0);
    assert_eq!(weekday(julian(2003, Month::May, 16)), 4);
    assert_eq!(weekday(-1), 6);
    assert_eq!(weekday(-7), 0);
}

#[test]
fn date_of_instant_agrees_with_the_calendar() {
    for instant in [
        0i64,
        1,
        86_399,
        86_400,
        -1,
        -86_400,
        -86_401,
        1_704_099_600,
        1_052_956_800,
        -2_000_000_000,
    ] {
        let expected = OffsetDateTime::from_unix_timestamp(instant).unwrap().date().to_julian_day();
        assert_eq!(date_of_instant(instant), expected as i64);
    }
}

#[test]
fn day_set_from_flags() {
    let days = ValidDays::from([true, false, true, false, false, false, true]);
    assert!(days.is_valid(Day::Monday));
    assert!(!days.is_valid(Day::Tuesday));
    assert!(days.is_valid(Day::Wednesday));
    assert!(!days.is_valid(Day::Thursday));
    assert!(!days.is_valid(Day::Friday));
    assert!(!days.is_valid(Day::Saturday));
    assert!(days.is_valid(Day::Sunday));
    assert!(!days.is_empty());
    let flags: [bool; 7] = days.into();
    assert_eq!(flags, [true, false, true, false, false, false, true]);
}

#[test]
fn day_set_empty() {
    let days = ValidDays::from([false; 7]);
    assert!(days.is_empty());
    assert!(ValidDays::none().is_empty());
    let flags: [bool; 7] = ValidDays::none().into();
    assert_eq!(flags, [false; 7]);
}

#[test]
fn day_set_set_and_clear() {
    let mut days = ValidDays::none();
    days.set(Day::Friday, true);
    assert!(days.is_valid(Day::Friday));
    assert!(!days.is_valid(Day::Thursday));
    assert!(!days.is_empty());
    days.set(Day::Sunday, true);
    days.set(Day::Friday, false);
    assert!(!days.is_valid(Day::Friday));
    assert!(days.is_valid(Day::Sunday));
    days.set(Day::Sunday, false);
    assert!(days.is_empty());
}

#[test]
fn next_valid_is_in_the_set_and_at_most_six_days_ahead() {
    let start = julian(2024, Month::January, 1);
    for mask in 1u32..128 {
        let mut flags = [false; 7];
        for (i, flag) in flags.iter_mut().enumerate() {
            *flag = mask & (1 << i) != 0;
        }
        let days = ValidDays::from(flags);
        for offset in 0..14 {
            let date = start + offset;
            let next = days.next_valid(date);
            assert!(next >= date);
            assert!(next - date <= 6);
            assert!(flags[weekday(next) as usize]);
            for between in date..next {
                assert!(!flags[weekday(between) as usize]);
            }
        }
    }
}

#[test]
fn next_valid_exact_dates() {
    let mondays = ValidDays::from([true, false, false, false, false, false, false]);
    // 2024-01-01 is a Monday.
    assert_eq!(
        mondays.next_valid(julian(2024, Month::January, 1)),
        julian(2024, Month::January, 1)
    );
    assert_eq!(
        mondays.next_valid(julian(2024, Month::January, 2)),
        julian(2024, Month::January, 8)
    );
    assert_eq!(
        mondays.next_valid(julian(2024, Month::January, 7)),
        julian(2024, Month::January, 8)
    );
    let weekend = ValidDays::from([false, false, false, false, false, true, true]);
    assert_eq!(
        weekend.next_valid(julian(2024, Month::January, 1)),
        julian(2024, Month::January, 6)
    );
}

#[test]
fn edge_next_valid_date() {
    let mut edge = Edge::new(3_600, 0, ValidDays::none());
    edge.set_day_validity(Day::Wednesday, true);
    assert!(edge.weekdays().is_valid(Day::Wednesday));
    assert_eq!(edge.departure_time(), 3_600);
    assert_eq!(edge.connected_stop(), 0);
    assert_eq!(
        edge.get_next_valid_date(julian(2024, Month::January, 1)),
        julian(2024, Month::January, 3)
    );
}

#[test]
fn departure_on_the_day() {
    let edge = Edge::new(32_400, 0, ValidDays::from([true; 7]));
    let now = unix(2024, Month::January, 1, 8, 0, 0);
    assert_eq!(edge.departure_datetime(now), unix(2024, Month::January, 1, 9, 0, 0));
    assert_eq!(edge.arrival_datetime(now), unix(2024, Month::January, 1, 9, 0, 0));
    assert_eq!(edge.next_departure(now), unix(2024, Month::January, 1, 9, 0, 0));
}

#[test]
fn departure_missed_on_the_day() {
    let edge = Edge::new(32_400, 0, ValidDays::from([true; 7]));
    let now = unix(2024, Month::January, 1, 10, 0, 0);
    // The departure that is tried first lies before `now`.
    assert_eq!(edge.departure_datetime(now), unix(2024, Month::January, 1, 9, 0, 0));
    assert_eq!(edge.next_departure(now), unix(2024, Month::January, 2, 9, 0, 0));
}

#[test]
fn departure_past_midnight_belongs_to_the_day_before() {
    // 25:30 on Mondays is 01:30 on Tuesday mornings.
    let edge = Edge::new(91_800, 0, ValidDays::from([true, false, false, false, false, false, false]));
    let tuesday_early = unix(2024, Month::January, 2, 0, 30, 0);
    assert_eq!(edge.departure_datetime(tuesday_early), unix(2024, Month::January, 2, 1, 30, 0));
    assert_eq!(edge.next_departure(tuesday_early), unix(2024, Month::January, 2, 1, 30, 0));
    let tuesday_late = unix(2024, Month::January, 2, 2, 0, 0);
    assert_eq!(edge.next_departure(tuesday_late), unix(2024, Month::January, 9, 1, 30, 0));
    let monday = unix(2024, Month::January, 1, 12, 0, 0);
    assert_eq!(edge.next_departure(monday), unix(2024, Month::January, 2, 1, 30, 0));
}

#[test]
fn departure_waits_for_the_next_service_day() {
    let edge = Edge::new(600, 0, ValidDays::from([false, false, false, false, true, false, false]));
    let monday = unix(2024, Month::January, 1, 0, 0, 0);
    assert_eq!(edge.departure_datetime(monday), unix(2024, Month::January, 5, 0, 10, 0));
    assert_eq!(edge.next_departure(monday), unix(2024, Month::January, 5, 0, 10, 0));
}
