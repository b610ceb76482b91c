use gtfs_heatmap_lib::dijkstras::{StopMapCache, StopNode, TimeLookupTable};
use gtfs_heatmap_lib::gtfs_types::{
    parse_time, seconds_to_hhmmss, Day, DayTime, Hour, IntOutOfBounds, OverflowError, ParseError,
    StopTrip,
};
use std::str::FromStr;


#[test]
fn parse_time_of_day() {
    assert_eq!(parse_time("00:00:00"), Ok(0));
    assert_eq!(parse_time("09:00:00"), Ok(32_400));
    assert_eq!(parse_time("25:30:00"), Ok(91_800));
    assert_eq!(parse_time("1:2:3"), Ok(3_723));
    assert_eq!(parse_time("23:59:59"), Ok(86_399));
}

#[test]
fn parse_time_reads_three_fields_only() {
    assert_eq!(parse_time("1:2:3:4"), Ok(3_723));
    assert_eq!(parse_time("1:2:3:"), Ok(3_723));
    assert_eq!(parse_time("1:2:3:x"), Ok(3_723));
}

#[test]
fn parse_time_takes_a_plus_sign_and_leading_zeros() {
    assert_eq!(parse_time("+1:+2:+3"), Ok(3_723));
    assert_eq!(parse_time("0000000000001:00:000"), Ok(3_600));
}

#[test]
fn parse_time_refuses_what_is_no_time() {
    for text in [
        "", ":", "::", "1", "1:2", "1:2:", ":2:3", "1::3", "a:b:c", "1:2:x", "-1:2:3", "1:2:3 ",
        " 1:2:3", "1:+:3", "+:1:1", "1.5:0:0", "1:2:３",
    ] {
        assert_eq!(parse_time(text), Err(ParseError), "{:?}", text);
    }
}

#[test]
fn parse_time_refuses_what_does_not_fit() {
    assert_eq!(parse_time("4294967296:0:0"), Err(ParseError));
    assert_eq!(parse_time("0:0:4294967295"), Ok(4_294_967_295));
    assert_eq!(parse_time("0:0:4294967296"), Err(ParseError));
    assert_eq!(parse_time("1193046:28:15"), Ok(4_294_967_295));
    assert_eq!(parse_time("1193046:28:16"), Err(ParseError));
    assert_eq!(parse_time("99999999999999999999999:0:0"), Err(ParseError));
}

#[test]
fn seconds_as_text() {
    assert_eq!(seconds_to_hhmmss(0), "00:00:00");
    assert_eq!(seconds_to_hhmmss(32_400), "09:00:00");
    assert_eq!(seconds_to_hhmmss(86_399), "23:59:59");
    assert_eq!(seconds_to_hhmmss(91_800), "25:30:00");
    assert_eq!(seconds_to_hhmmss(3_723), "01:02:03");
    // Hours are shown modulo 60.
    assert_eq!(seconds_to_hhmmss(60 * 3600 + 61), "00:01:01");
    assert_eq!(seconds_to_hhmmss(u32::MAX), "06:28:15");
}

#[test]
fn day_from_name() {
    assert_eq!(Day::from_str("Mon"), Ok(Day::Monday));
    assert_eq!(Day::from_str("Tue"), Ok(Day::Tuesday));
    assert_eq!(Day::from_str("Wen"), Ok(Day::Wednesday));
    assert_eq!(Day::from_str("Thu"), Ok(Day::Thursday));
    assert_eq!(Day::from_str("Fri"), Ok(Day::Friday));
    assert_eq!(Day::from_str("Sat"), Ok(Day::Saturday));
    assert_eq!(Day::from_str("Sun"), Ok(Day::Sunday));
    assert_eq!("Sat".parse::<Day>(), Ok(Day::Saturday));
    for text in ["", "Wed", "mon", "Mon ", "Monday", "Mo", "Sün", "日"] {
        assert_eq!(Day::from_str(text), Err(ParseError), "{:?}", text);
    }
}

#[test]
fn day_as_text() {
    assert_eq!(Day::Monday.to_string(), "Ma");
    assert_eq!(Day::Tuesday.to_string(), "Ti");
    assert_eq!(Day::Wednesday.to_string(), "Ke");
    assert_eq!(Day::Thursday.to_string(), "To");
    assert_eq!(Day::Friday.to_string(), "Pe");
    assert_eq!(Day::Saturday.to_string(), "La");
    assert_eq!(Day::Sunday.to_string(), "Su");
}

#[test]
fn day_from_position() {
    let days = [
        Day::Monday,
        Day::Tuesday,
        Day::Wednesday,
        Day::Thursday,
        Day::Friday,
        Day::Saturday,
        Day::Sunday,
    ];
    for (position, day) in days.iter().enumerate() {
        assert_eq!(Day::try_from(position as u8), Ok(*day));
        assert_eq!(day.number_days_from_monday(), position as u8);
    }
    assert_eq!(Day::try_from(7u8), Err(IntOutOfBounds));
    assert_eq!(Day::try_from(255u8), Err(IntOutOfBounds));
    assert_eq!(Day::default(), Day::Monday);
}

#[test]
fn hour_of_day() {
    assert_eq!(Hour::try_from(0u32).unwrap().as_seconds(), 0);
    assert_eq!(Hour::try_from(9u32).unwrap().as_seconds(), 32_400);
    assert_eq!(Hour::try_from(24u32).unwrap().as_seconds(), 86_400);
    assert_eq!(Hour::try_from(25u32), Err(OverflowError));
    assert_eq!(Hour::try_from(u32::MAX), Err(OverflowError));
    assert_eq!(Hour::default().as_seconds(), 0);
    assert_eq!(Hour::try_from(7u32).unwrap().to_string(), "07:00:00");
    assert_eq!(Hour::try_from(24u32).unwrap().to_string(), "24:00:00");
}

#[test]
fn stop_node_from_call() {
    let node = StopNode::from(StopTrip {
        stop_id: "A".to_string(),
        trip_id: "T".to_string(),
        stop_sequence: 3,
        arrival_time: 100,
        departure_time: 160,
    });
    assert_eq!(node.stop_id, "A");
    assert_eq!(node.time_to, 160);
    let node = StopNode::default();
    assert_eq!(node.stop_id, "");
    assert_eq!(node.time_to, 0);
}

fn at(day: Day, hour: u32) -> DayTime {
    DayTime { day, time: Hour::try_from(hour).unwrap() }
}

fn origin(id: &str) -> StopNode {
    StopNode { stop_id: id.to_string(), time_to: 0 }
}

#[test]
fn cache_starts_empty() {
    let cache = StopMapCache::new();
    assert_eq!(cache.get().len(), 0);
    assert!(cache.is_current(DayTime::default(), StopNode::default()));
    assert!(cache.is_current(at(Day::Monday, 0), origin("")));
    assert!(!cache.is_current(at(Day::Monday, 1), origin("")));
    assert!(!cache.is_current(at(Day::Tuesday, 0), origin("")));
    assert!(!cache.is_current(at(Day::Monday, 0), origin("A")));
    assert_eq!(StopMapCache::default().get().len(), 0);
}

#[test]
fn cache_holds_the_table_that_was_put_in_last() {
    let mut cache = StopMapCache::new();
    let mut table: TimeLookupTable = TimeLookupTable::new();
    table.insert("A".to_string(), 0);
    table.insert("B".to_string(), 120);
    cache.update_lookup_table(at(Day::Friday, 8), origin("A"), table);
    assert!(cache.is_current(at(Day::Friday, 8), origin("A")));
    assert!(!cache.is_current(at(Day::Friday, 9), origin("A")));
    assert!(!cache.is_current(at(Day::Friday, 8), origin("B")));
    assert!(!cache.is_current(
        at(Day::Friday, 8),
        StopNode { stop_id: "A".to_string(), time_to: 1 }
    ));
    assert!(!cache.is_current(DayTime::default(), StopNode::default()));
    let found = cache.get_if_current(at(Day::Friday, 8), origin("A")).unwrap();
    assert_eq!(found.len(), 2);
    assert_eq!(found.get("B"), Some(&120));
    assert!(cache.get_if_current(at(Day::Saturday, 8), origin("A")).is_none());
    assert_eq!(cache.get().get("A"), Some(&0));

    let mut next: TimeLookupTable = TimeLookupTable::new();
    next.insert("C".to_string(), 5);
    cache.update_lookup_table(at(Day::Saturday, 8), origin("C"), next);
    assert!(cache.get_if_current(at(Day::Friday, 8), origin("A")).is_none());
    assert_eq!(cache.get().len(), 1);
    assert_eq!(cache.get().get("C"), Some(&5));
}
