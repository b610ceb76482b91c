use gtfs_heatmap_lib::coords::Coordinates;
use gtfs_heatmap_lib::gtfs_graph::parser::{Calendar, Feed, StopTime, Trip};
use gtfs_heatmap_lib::gtfs_graph::{Error, GtfsGraph, Stop};

fn record(id: &str, latitude: i32, longitude: i32, location_type: u32) -> gtfs_heatmap_lib::gtfs_types::Stop {
    gtfs_heatmap_lib::gtfs_types::Stop {
        stop_id: id.to_string(),
        stop_code: String::new(),
        stop_name: String::new(),
        stop_desc: String::new(),
        coordinates: Coordinates { latitude, longitude },
        zone_id: String::new(),
        stop_url: String::new(),
        location_type,
        parent_station: String::new(),
        wheelchair_boarding: 0,
    }
}

fn call(stop: &str, departure: Option<u32>) -> StopTime {
    StopTime { stop_id: stop.to_string(), departure_time: departure }
}

const MONDAYS: [bool; 7] = [true, false, false, false, false, false, false];

fn small_feed() -> Feed {
    Feed {
        stops: vec![
            record("A", 601_700_000, 249_400_000, 0),
            record("station", 601_800_000, 249_300_000, 1),
            record("B", 602_000_000, 249_300_000, 0),
            record("C", 602_100_000, 249_200_000, 0),
        ],
        trips: vec![
            Trip {
                service_id: "weekdays".to_string(),
                stop_times: vec![call("A", Some(32_400)), call("B", Some(33_000)), call("C", None)],
            },
            Trip {
                service_id: "mondays".to_string(),
                stop_times: vec![call("C", Some(90_000)), call("A", None)],
            },
        ],
        calendar: vec![
            Calendar { service_id: "weekdays".to_string(), weekdays: [true, true, true, true, true, false, false] },
            Calendar { service_id: "mondays".to_string(), weekdays: MONDAYS },
        ],
    }
}

#[test]
fn new_graph_is_empty() {
    let graph = GtfsGraph::new();
    assert_eq!(graph.get_stops().len(), 0);
    assert!(graph.get_stop("A").is_none());
}

#[test]
fn insert_stop_adds_the_stop() {
    let mut graph = GtfsGraph::new();
    assert!(graph.insert_stop(record("A", 1, 2, 0)).is_ok());
    let stop = graph.get_stop("A").unwrap();
    assert_eq!(stop.id, "A");
    assert_eq!(stop.coordinates, Coordinates { latitude: 1, longitude: 2 });
    assert!(stop.edges().is_empty());
    assert!(graph.get_stop("B").is_none());
}

#[test]
fn insert_stop_refuses_a_duplicate() {
    let mut graph = GtfsGraph::new();
    graph.insert_stop(record("A", 1, 2, 0)).unwrap();
    match graph.insert_stop(record("A", 3, 4, 0)) {
        Err(Error::DuplicateStop(id)) => assert_eq!(id, "A"),
        other => panic!("{:?}", other),
    }
    assert_eq!(graph.get_stops().len(), 1);
    assert_eq!(graph.get_stop("A").unwrap().coordinates, Coordinates { latitude: 1, longitude: 2 });
}

#[test]
fn insert_stop_refuses_a_station() {
    let mut graph = GtfsGraph::new();
    assert!(matches!(graph.insert_stop(record("S", 1, 2, 1)), Err(Error::LocationTypeNotStop)));
    assert_eq!(graph.get_stops().len(), 0);
}

#[test]
fn insert_stop_refuses_coordinates_off_the_globe() {
    let mut graph = GtfsGraph::new();
    assert!(matches!(graph.insert_stop(record("A", 900_000_001, 0, 0)), Err(Error::ParseError)));
    assert!(matches!(graph.insert_stop(record("A", 0, -1_800_000_001, 0)), Err(Error::ParseError)));
    assert_eq!(graph.get_stops().len(), 0);
    assert!(graph.insert_stop(record("A", -900_000_000, 1_800_000_000, 0)).is_ok());
    // A station is refused for what it is, wherever it lies.
    assert!(matches!(
        graph.insert_stop(record("S", 900_000_001, 0, 1)),
        Err(Error::LocationTypeNotStop)
    ));
    // Coordinates are looked at before the id.
    assert!(matches!(graph.insert_stop(record("A", 900_000_001, 0, 0)), Err(Error::ParseError)));
}

#[test]
fn stop_try_from_record() {
    let stop = Stop::try_from(record("A", 5, 6, 0)).unwrap();
    assert_eq!(stop.id, "A");
    assert_eq!(stop.coordinates, Coordinates { latitude: 5, longitude: 6 });
    assert!(stop.edges().is_empty());
    assert!(matches!(Stop::try_from(record("S", 5, 6, 2)), Err(Error::LocationTypeNotStop)));
    assert!(matches!(Stop::try_from(record("A", i32::MAX, 6, 0)), Err(Error::ParseError)));
}

#[test]
fn connect_stops_adds_an_edge() {
    let mut graph = GtfsGraph::new();
    graph.insert_stop(record("A", 0, 0, 0)).unwrap();
    graph.insert_stop(record("B", 0, 10_000, 0)).unwrap();
    assert!(graph.connect_stops("A", 32_400, "B", MONDAYS).is_ok());
    assert!(graph.connect_stops("A", 40_000, "B", MONDAYS).is_ok());
    assert!(graph.connect_stops("B", 41_000, "A", MONDAYS).is_ok());
    assert_eq!(graph.get_stop("A").unwrap().edges(), &vec![0usize, 1]);
    assert_eq!(graph.get_stop("B").unwrap().edges(), &vec![2usize]);
}

#[test]
fn connect_stops_missing_departure_stop() {
    let mut graph = GtfsGraph::new();
    graph.insert_stop(record("B", 0, 0, 0)).unwrap();
    match graph.connect_stops("A", 1, "B", MONDAYS) {
        Err(Error::MissingDepartureStop(id)) => assert_eq!(id, "A"),
        other => panic!("{:?}", other),
    }
    // The departure stop is looked for first.
    match graph.connect_stops("A", 1, "Z", MONDAYS) {
        Err(Error::MissingDepartureStop(id)) => assert_eq!(id, "A"),
        other => panic!("{:?}", other),
    }
}

#[test]
fn connect_stops_missing_arrival_stop() {
    let mut graph = GtfsGraph::new();
    graph.insert_stop(record("A", 0, 0, 0)).unwrap();
    match graph.connect_stops("A", 1, "B", MONDAYS) {
        Err(Error::MissingArrivalStop(id)) => assert_eq!(id, "B"),
        other => panic!("{:?}", other),
    }
    assert!(graph.get_stop("A").unwrap().edges().is_empty());
}

#[test]
fn connect_stops_refuses_an_edge_that_never_runs() {
    let mut graph = GtfsGraph::new();
    graph.insert_stop(record("A", 0, 0, 0)).unwrap();
    graph.insert_stop(record("B", 0, 0, 0)).unwrap();
    assert!(matches!(graph.connect_stops("A", 1, "B", [false; 7]), Err(Error::ParseError)));
    assert!(graph.get_stop("A").unwrap().edges().is_empty());
}

#[test]
fn connect_stops_refuses_a_time_beyond_two_days() {
    let mut graph = GtfsGraph::new();
    graph.insert_stop(record("A", 0, 0, 0)).unwrap();
    graph.insert_stop(record("B", 0, 0, 0)).unwrap();
    assert!(matches!(graph.connect_stops("A", 172_800, "B", MONDAYS), Err(Error::ParseError)));
    assert!(graph.connect_stops("A", 172_799, "B", MONDAYS).is_ok());
}

#[test]
fn stops_listing_two_stops() {
    let mut graph = GtfsGraph::new();
    graph.insert_stop(record("A", 601_700_000, 249_400_000, 0)).unwrap();
    graph.insert_stop(record("B", 602_000_000, 249_300_000, 0)).unwrap();
    let stops = graph.get_stops();
    assert_eq!(stops.len(), 2);
    assert_eq!(stops[0].id, "A");
    assert_eq!(stops[0].coordinates, Coordinates { latitude: 601_700_000, longitude: 249_400_000 });
    assert_eq!(stops[1].id, "B");
    assert_eq!(stops[1].coordinates, Coordinates { latitude: 602_000_000, longitude: 249_300_000 });
}

#[test]
fn test_get_stops() {
    let gtfs_graph = GtfsGraph::try_from(small_feed()).unwrap();

    let stops = gtfs_graph.get_stops();
    assert_eq!(stops.len(), 3);
    assert_eq!(stops[0].id, "A");
    assert_eq!(stops[1].id, "B");
    assert_eq!(stops[2].id, "C");
}

#[test]
fn gtfs_to_graph() {
    let feed = small_feed();
    let mut graph = GtfsGraph::new();
    for stop in feed.stops {
        if let Ok(stop) = Stop::try_from(stop) {
            graph
                .insert_stop(record(&stop.id, stop.coordinates.latitude, stop.coordinates.longitude, 0))
                .unwrap();
        }
    }
    assert_eq!(graph.get_stops().len(), 3);
}

#[test]
fn parse_gtfs_to_graph() {
    let graph = GtfsGraph::try_from(small_feed()).unwrap();
    assert_eq!(graph.get_stop("A").unwrap().edges(), &vec![0usize]);
    assert_eq!(graph.get_stop("B").unwrap().edges(), &vec![1usize]);
    assert_eq!(graph.get_stop("C").unwrap().edges(), &vec![2usize]);
    assert!(graph.get_stop("station").is_none());
}

#[test]
fn built_graph_edges_arrive_at_stops_and_run_on_some_day() {
    let graph = GtfsGraph::try_from(small_feed()).unwrap();
    let stops = graph.get_stops();
    let mut seen = 0;
    for stop in stops.iter() {
        for position in stop.edges().iter() {
            let edge = graph.get_edge(*position).unwrap();
            assert!(edge.connected_stop() < stops.len());
            assert!(graph.get_stop(&stops[edge.connected_stop()].id).is_some());
            assert!(!edge.weekdays().is_empty());
            seen += 1;
        }
    }
    assert_eq!(seen, 3);
}

#[test]
fn build_refuses_a_duplicate_stop() {
    let mut feed = small_feed();
    feed.stops.push(record("B", 0, 0, 0));
    match GtfsGraph::try_from(feed) {
        Err(Error::DuplicateStop(id)) => assert_eq!(id, "B"),
        Err(other) => panic!("{:?}", other),
        Ok(_) => panic!("built"),
    }
}

#[test]
fn build_refuses_a_stop_off_the_globe() {
    let mut feed = small_feed();
    feed.stops[2].coordinates.longitude = 1_800_000_001;
    assert!(matches!(GtfsGraph::try_from(feed), Err(Error::ParseError)));
    // A station off the globe is passed over like any station.
    let mut feed = small_feed();
    feed.stops[1].coordinates.latitude = -900_000_001;
    assert!(GtfsGraph::try_from(feed).is_ok());
}

#[test]
fn build_refuses_a_missing_departure_time() {
    let mut feed = small_feed();
    feed.trips[0].stop_times[1].departure_time = None;
    assert!(matches!(GtfsGraph::try_from(feed), Err(Error::ParseError)));
}

#[test]
fn build_accepts_a_last_call_without_departure_time() {
    let mut feed = small_feed();
    feed.trips[0].stop_times[2].departure_time = None;
    feed.trips[1].stop_times[1].departure_time = None;
    assert!(GtfsGraph::try_from(feed).is_ok());
}

#[test]
fn build_refuses_an_unknown_service() {
    let mut feed = small_feed();
    feed.calendar.remove(1);
    assert!(matches!(GtfsGraph::try_from(feed), Err(Error::ParseError)));
}

#[test]
fn build_refuses_a_call_at_an_unknown_stop() {
    let mut feed = small_feed();
    feed.trips[0].stop_times[1].stop_id = "station".to_string();
    assert!(matches!(GtfsGraph::try_from(feed), Err(Error::ParseError)));
}

#[test]
fn build_refuses_a_service_without_days() {
    let mut feed = small_feed();
    feed.calendar[0].weekdays = [false; 7];
    assert!(matches!(GtfsGraph::try_from(feed), Err(Error::ParseError)));
}

#[test]
fn build_takes_the_later_calendar_record() {
    let mut feed = small_feed();
    feed.calendar.push(Calendar {
        service_id: "mondays".to_string(),
        weekdays: [false, false, false, false, false, false, true],
    });
    let graph = GtfsGraph::try_from(feed).unwrap();
    let edge = graph.get_edge(2).unwrap();
    assert!(edge.weekdays().is_valid(gtfs_heatmap_lib::gtfs_types::Day::Sunday));
    assert!(!edge.weekdays().is_valid(gtfs_heatmap_lib::gtfs_types::Day::Monday));
}

#[test]
fn build_of_an_empty_feed() {
    let graph = GtfsGraph::try_from(Feed { stops: vec![], trips: vec![], calendar: vec![] }).unwrap();
    assert!(graph.get_stops().is_empty());
}

#[test]
fn error_messages() {
    assert_eq!(
        Error::DuplicateStop("A".to_string()).to_string(),
        "Stop with id A already exsists in graph"
    );
    assert_eq!(
        Error::MissingDepartureStop("A".to_string()).to_string(),
        "Tried connecting edge to non existing departure node A"
    );
    assert_eq!(
        Error::MissingArrivalStop("B".to_string()).to_string(),
        "Tried connecting edge to non existing arrival node B"
    );
    assert_eq!(Error::MissingStop("C".to_string()).to_string(), "Couldn't find node with id: C");
    assert_eq!(Error::LocationTypeNotStop.to_string(), "The stops location type is not Stop");
    assert_eq!(Error::ParseError.to_string(), "Failed to parse");
}
