use gtfs_heatmap_lib::coords::Coordinates;
use gtfs_heatmap_lib::gtfs_graph::{Error, GtfsGraph};
use time::{Date, Month, OffsetDateTime, Time};

const MONDAYS: [bool; 7] = [true, false, false, false, false, false, false];
const DAILY: [bool; 7] = [true; 7];

fn record(id: &str, latitude: i32, longitude: i32) -> gtfs_heatmap_lib::gtfs_types::Stop {
    gtfs_heatmap_lib::gtfs_types::Stop {
        stop_id: id.to_string(),
        stop_code: String::new(),
        stop_name: String::new(),
        stop_desc: String::new(),
        coordinates: Coordinates { latitude, longitude },
        zone_id: String::new(),
        stop_url: String::new(),
        location_type: 0,
        parent_station: String::new(),
        wheelchair_boarding: 0,
    }
}

fn unix(year: i32, month: Month, day: u8, hour: u8, minute: u8, second: u8) -> i64 {
    OffsetDateTime::new_utc(
        Date::from_calendar_date(year, month, day).unwrap(),
        Time::from_hms(hour, minute, second).unwrap(),
    )
    .unix_timestamp()
}

fn graph_of(stops: &[&str]) -> GtfsGraph {
    let mut graph = GtfsGraph::new();
    for (i, id) in stops.iter().enumerate() {
        graph.insert_stop(record(id, 0, i as i32 * 10_000)).unwrap();
    }
    graph
}

/// Stops A (0, 0) and B (0, 0.001), one trip from A to B on Mondays at 09:00.
fn two_stops() -> GtfsGraph {
    let mut graph = graph_of(&["A", "B"]);
    graph.connect_stops("A", 9 * 3600, "B", MONDAYS).unwrap();
    graph
}

#[test]
fn trivial_reachability() {
    let graph = two_stops();
    // 2024-01-01 is a Monday.
    let table = graph.dijkstras("A", unix(2024, Month::January, 1, 9, 0, 0)).unwrap();
    assert_eq!(table.len(), 2);
    assert_eq!(table.get("A"), Some(&0));
    assert_eq!(table.get("B"), Some(&0));
}

#[test]
fn missed_departure() {
    let graph = two_stops();
    let table = graph.dijkstras("A", unix(2024, Month::January, 1, 9, 0, 1)).unwrap();
    assert_eq!(table.len(), 2);
    assert_eq!(table.get("A"), Some(&0));
    assert_eq!(table.get("B"), Some(&604_799));
}

#[test]
fn origin_is_at_zero_and_unreachable_stops_are_absent() {
    let graph = two_stops();
    let table = graph.dijkstras("B", unix(2024, Month::January, 1, 9, 0, 0)).unwrap();
    assert_eq!(table.len(), 1);
    assert_eq!(table.get("B"), Some(&0));
    assert_eq!(table.get("A"), None);
}

#[test]
fn unknown_origin() {
    let graph = two_stops();
    match graph.dijkstras("Z", 0) {
        Err(Error::MissingStop(id)) => assert_eq!(id, "Z"),
        Err(other) => panic!("{:?}", other),
        Ok(_) => panic!("found"),
    }
}

#[test]
fn waits_add_up_along_a_line() {
    let mut graph = graph_of(&["A", "B", "C", "D"]);
    graph.connect_stops("A", 8 * 3600, "B", DAILY).unwrap();
    graph.connect_stops("B", 8 * 3600 + 600, "C", DAILY).unwrap();
    // Leaves C before the traveller gets there: the next one is a day later.
    graph.connect_stops("C", 8 * 3600 + 300, "D", DAILY).unwrap();
    let table = graph.dijkstras("A", unix(2024, Month::January, 3, 7, 0, 0)).unwrap();
    assert_eq!(table.get("A"), Some(&0));
    assert_eq!(table.get("B"), Some(&3_600));
    assert_eq!(table.get("C"), Some(&4_200));
    assert_eq!(table.get("D"), Some(&(3_900 + 86_400)));
}

#[test]
fn the_earlier_of_two_ways_wins() {
    let mut graph = graph_of(&["A", "B", "C"]);
    graph.connect_stops("A", 10 * 3600, "C", DAILY).unwrap();
    graph.connect_stops("A", 8 * 3600, "B", DAILY).unwrap();
    graph.connect_stops("B", 9 * 3600, "C", DAILY).unwrap();
    graph.connect_stops("A", 11 * 3600, "C", DAILY).unwrap();
    let table = graph.dijkstras("A", unix(2024, Month::January, 3, 7, 30, 0)).unwrap();
    assert_eq!(table.get("B"), Some(&1_800));
    assert_eq!(table.get("C"), Some(&5_400));
}

#[test]
fn a_later_edge_does_not_beat_an_entry_of_the_table() {
    // For every edge that leaves a stop of the table no earlier than the traveller
    // stands there, the arrival stop is in the table no later than that departure.
    let mut graph = graph_of(&["A", "B", "C", "D"]);
    let hops: [(&str, u32, &str); 6] = [
        ("A", 30_000, "B"),
        ("A", 40_000, "C"),
        ("B", 35_000, "C"),
        ("C", 36_000, "D"),
        ("B", 50_000, "D"),
        ("D", 37_000, "A"),
    ];
    for (from, time, to) in hops {
        graph.connect_stops(from, time, to, DAILY).unwrap();
    }
    let start = unix(2024, Month::January, 3, 0, 0, 0);
    let table = graph.dijkstras("A", start).unwrap();
    assert_eq!(table.get("A"), Some(&0));
    assert_eq!(table.get("B"), Some(&30_000));
    assert_eq!(table.get("C"), Some(&35_000));
    assert_eq!(table.get("D"), Some(&36_000));
    for (from, time, to) in hops {
        let at = *table.get(from).unwrap() as i64;
        for day in 0..3 {
            let departure = time as i64 + day * 86_400;
            if departure >= at {
                assert!(*table.get(to).unwrap() as i64 <= departure);
            }
        }
    }
}

#[test]
fn a_ride_past_midnight_counts_for_the_day_before() {
    let mut graph = graph_of(&["A", "B"]);
    // 24:10 on Mondays leaves on Tuesday at 00:10.
    graph.connect_stops("A", 86_400 + 600, "B", MONDAYS).unwrap();
    let table = graph.dijkstras("A", unix(2024, Month::January, 2, 0, 5, 0)).unwrap();
    assert_eq!(table.get("B"), Some(&300));
    let table = graph.dijkstras("A", unix(2024, Month::January, 1, 23, 0, 0)).unwrap();
    assert_eq!(table.get("B"), Some(&4_200));
    let table = graph.dijkstras("A", unix(2024, Month::January, 2, 0, 10, 1)).unwrap();
    assert_eq!(table.get("B"), Some(&604_799));
}

#[test]
fn a_loop_back_to_the_origin_keeps_it_at_zero() {
    let mut graph = graph_of(&["A", "B"]);
    graph.connect_stops("A", 100, "B", DAILY).unwrap();
    graph.connect_stops("B", 200, "A", DAILY).unwrap();
    graph.connect_stops("A", 50, "A", DAILY).unwrap();
    let table = graph.dijkstras("A", unix(2024, Month::January, 1, 0, 0, 0)).unwrap();
    assert_eq!(table.len(), 2);
    assert_eq!(table.get("A"), Some(&0));
    assert_eq!(table.get("B"), Some(&100));
}

#[test]
fn search_by_position() {
    let graph = two_stops();
    let table = graph.search(0, unix(2024, Month::January, 1, 8, 0, 0));
    assert_eq!(table, vec![Some(0), Some(3_600)]);
    let table = graph.search(1, unix(2024, Month::January, 1, 8, 0, 0));
    assert_eq!(table, vec![None, Some(0)]);
}

#[test]
fn search_before_the_epoch() {
    let graph = two_stops();
    // 1969-12-29 is a Monday.
    let table = graph.dijkstras("A", unix(1969, Month::December, 29, 8, 59, 0)).unwrap();
    assert_eq!(table.get("B"), Some(&60));
}
