//! Building the graph from the records of a feed.

use crate::gtfs_graph::calendar::no_day;
use crate::gtfs_graph::{EdgeView, Error, ErrorView, GraphView, GtfsGraph};
use crate::gtfs_types::Stop;
use vstd::hash_map::StringHashMap;
use vstd::prelude::*;

verus! {

/// One call of a trip: the stop, and the time of day at which the trip leaves it.
#[derive(Debug)]
pub struct StopTime {
    pub stop_id: String,
    pub departure_time: Option<u32>,
}

/// A trip: the service that it belongs to and its calls in their order.
#[derive(Debug)]
pub struct Trip {
    pub service_id: String,
    pub stop_times: Vec<StopTime>,
}

/// The days of the week, Monday first, on which the trips of a service run.
#[derive(Debug)]
pub struct Calendar {
    pub service_id: String,
    pub weekdays: [bool; 7],
}

/// The records of a feed that the graph is built from.
#[derive(Debug)]
pub struct Feed {
    pub stops: Vec<Stop>,
    pub trips: Vec<Trip>,
    pub calendar: Vec<Calendar>,
}

/// The graph with the boarding locations among the first `upto` stop records added.
/// Records of other location types are passed over; coordinates off the globe and an
/// id that comes twice are errors.
pub open spec fn with_stops(graph: GraphView, stops: Seq<Stop>, upto: int) -> Result<
    GraphView,
    ErrorView,
>
    decreases upto,
{
    if upto <= 0 {
        Ok(graph)
    } else {
        match with_stops(graph, stops, upto - 1) {
            Err(error) => Err(error),
            Ok(before) => {
                let stop = stops[upto - 1];
                if stop.location_type != 0 {
                    Ok(before)
                } else if !stop.coordinates.valid() {
                    Err(ErrorView::ParseError)
                } else if before.has_stop(stop.stop_id@) {
                    Err(ErrorView::DuplicateStop(stop.stop_id@))
                } else {
                    Ok(before.with_stop(stop.stop_id@, stop.coordinates))
                }
            },
        }
    }
}

/// The position of the last of the first `upto` calendar records that is for the
/// given service.
pub open spec fn calendar_position(
    calendar: Seq<Calendar>,
    service: Seq<char>,
    upto: int,
) -> Option<int>
    decreases upto,
{
    if upto <= 0 {
        None
    } else if calendar[upto - 1].service_id@ == service {
        Some(upto - 1)
    } else {
        calendar_position(calendar, service, upto - 1)
    }
}

/// The graph with an edge from one call of a trip to the next. The earlier call must
/// have a departure time that is a time of day, both stops must be in the graph, and
/// the service must run on some day of the week.
pub open spec fn with_hop(
    graph: GraphView,
    from: StopTime,
    to: StopTime,
    days: Seq<bool>,
) -> Result<GraphView, ErrorView> {
    match from.departure_time {
        Some(time) => if graph.has_stop(from.stop_id@) && graph.has_stop(to.stop_id@) && time
            < 172_800 && !no_day(days) {
            Ok(
                graph.with_edge(
                    graph.index_of(from.stop_id@),
                    EdgeView {
                        departure_time: time,
                        connected_stop: graph.index_of(to.stop_id@) as usize,
                        weekdays: days,
                    },
                ),
            )
        } else {
            Err(ErrorView::ParseError)
        },
        None => Err(ErrorView::ParseError),
    }
}

/// The graph with the first `upto` hops of a trip added, each from one call to the
/// next.
pub open spec fn with_hops(
    graph: GraphView,
    calls: Seq<StopTime>,
    days: Seq<bool>,
    upto: int,
) -> Result<GraphView, ErrorView>
    decreases upto,
{
    if upto <= 0 {
        Ok(graph)
    } else {
        match with_hops(graph, calls, days, upto - 1) {
            Err(error) => Err(error),
            Ok(before) => with_hop(before, calls[upto - 1], calls[upto], days),
        }
    }
}

/// The graph with the hops of a trip added. The service of the trip must have a
/// calendar record.
pub open spec fn with_trip(graph: GraphView, trip: Trip, calendar: Seq<Calendar>) -> Result<
    GraphView,
    ErrorView,
> {
    match calendar_position(calendar, trip.service_id@, calendar.len() as int) {
        Some(position) => with_hops(
            graph,
            trip.stop_times@,
            calendar[position].weekdays@,
            trip.stop_times@.len() - 1,
        ),
        None => Err(ErrorView::ParseError),
    }
}

/// The graph with the hops of the first `upto` trips added.
pub open spec fn with_trips(
    graph: GraphView,
    trips: Seq<Trip>,
    calendar: Seq<Calendar>,
    upto: int,
) -> Result<GraphView, ErrorView>
    decreases upto,
{
    if upto <= 0 {
        Ok(graph)
    } else {
        match with_trips(graph, trips, calendar, upto - 1) {
            Err(error) => Err(error),
            Ok(before) => with_trip(before, trips[upto - 1], calendar),
        }
    }
}

/// The graph of a feed: its boarding locations as stops, in the order of the stop
/// records, and one edge for each hop of each trip, in the order of the trips.
pub open spec fn graph_of(feed: Feed) -> Result<GraphView, ErrorView> {
    let empty = GraphView { stops: Seq::empty(), edges: Seq::empty() };
    match with_stops(empty, feed.stops@, feed.stops@.len() as int) {
        Err(error) => Err(error),
        Ok(stops) => with_trips(stops, feed.trips@, feed.calendar@, feed.trips@.len() as int),
    }
}

/// Finds the calendar records by the id of their service; a later record for a
/// service replaces an earlier one.
fn index_calendar(calendar: &Vec<Calendar>) -> (index: StringHashMap<usize>)
    ensures
        forall|service: Seq<char>|
            match calendar_position(calendar@, service, calendar@.len() as int) {
                Some(position) => #[trigger] index@.contains_key(service) && index@[service]
                    == position && 0 <= position < calendar@.len(),
                None => !index@.contains_key(service),
            },
{
    let mut index: StringHashMap<usize> = StringHashMap::new();
    let n: usize = calendar.len();
    let mut i: usize = 0;
    while i < n
        invariant
            0 <= i <= n,
            n == calendar@.len(),
            forall|service: Seq<char>|
                match calendar_position(calendar@, service, i as int) {
                    Some(position) => #[trigger] index@.contains_key(service) && index@[service]
                        == position && 0 <= position < i,
                    None => !index@.contains_key(service),
                },
        decreases n - i,
    {
        let key = calendar[i].service_id.clone();
        index.insert(key, i);
        i = i + 1;
    }
    index
}

impl GtfsGraph {
    /// Adds the hops of a trip that runs on the given days of the week.
    fn add_trip(&mut self, calls: &Vec<StopTime>, weekdays: [bool; 7]) -> (r: Result<(), Error>)
        requires
            old(self).wf(),
        ensures
            final(self).wf(),
            match r {
                Ok(()) => with_hops(old(self)@, calls@, weekdays@, calls@.len() - 1) == Ok::<
                    GraphView,
                    ErrorView,
                >(final(self)@),
                Err(error) => with_hops(old(self)@, calls@, weekdays@, calls@.len() - 1) == Err::<
                    GraphView,
                    ErrorView,
                >(error@),
            },
    {
        let n: usize = calls.len();
        if n < 2 {
            return Ok(());
        }
        let mut i: usize = 0;
        while i < n - 1
            invariant
                0 <= i <= n - 1,
                2 <= n,
                n == calls@.len(),
                self.wf(),
                with_hops(old(self)@, calls@, weekdays@, i as int) == Ok::<GraphView, ErrorView>(
                    self@,
                ),
            decreases n - i,
        {
            let from = &calls[i];
            let to = &calls[i + 1];
            let time: u32 = match from.departure_time {
                Some(time) => time,
                None => {
                    proof {
                        assert(with_hop(self@, calls@[i as int], calls@[i + 1], weekdays@).is_err());
                        assert(with_hops(old(self)@, calls@, weekdays@, i as int + 1) == Err::<
                            GraphView,
                            ErrorView,
                        >(ErrorView::ParseError));
                        lemma_hops_fail(old(self)@, calls@, weekdays@, i as int + 1, n as int - 1);
                    }
                    return Err(Error::ParseError);
                },
            };
            let ghost before = self@;
            match self.connect_stops(from.stop_id.as_str(), time, to.stop_id.as_str(), weekdays) {
                Ok(()) => {
                    proof {
                        assert(with_hop(before, calls@[i as int], calls@[i + 1], weekdays@) == Ok::<
                            GraphView,
                            ErrorView,
                        >(self@));
                    }
                },
                Err(_) => {
                    proof {
                        assert(with_hop(before, calls@[i as int], calls@[i + 1], weekdays@)
                            == Err::<GraphView, ErrorView>(ErrorView::ParseError));
                        assert(with_hops(old(self)@, calls@, weekdays@, i as int + 1) == Err::<
                            GraphView,
                            ErrorView,
                        >(ErrorView::ParseError));
                        lemma_hops_fail(old(self)@, calls@, weekdays@, i as int + 1, n as int - 1);
                    }
                    return Err(Error::ParseError);
                },
            }
            i = i + 1;
        }
        Ok(())
    }

    /// Builds the graph of a feed. Stop records that are no boarding locations are
    /// passed over. A stop off the globe, a stop id that comes twice, a trip whose
    /// service has no calendar record or runs on no day, a call other than the last
    /// of its trip that has no departure time or one that is no time of day, and a
    /// call at a stop that the graph does not hold each end the build with an error.
    pub fn try_from(feed: Feed) -> (r: Result<GtfsGraph, Error>)
        ensures
            match r {
                Ok(graph) => graph.wf() && graph_of(feed) == Ok::<GraphView, ErrorView>(graph@),
                Err(error) => graph_of(feed) == Err::<GraphView, ErrorView>(error@),
            },
    {
        let mut graph = GtfsGraph::new();
        let ghost empty = graph@;
        proof {
            assert(empty.stops =~= Seq::empty());
            assert(empty.edges =~= Seq::empty());
            assert(empty == (GraphView { stops: Seq::empty(), edges: Seq::empty() }));
        }
        let stops: usize = feed.stops.len();
        let mut i: usize = 0;
        while i < stops
            invariant
                0 <= i <= stops,
                stops == feed.stops@.len(),
                empty == (GraphView { stops: Seq::empty(), edges: Seq::empty() }),
                graph.wf(),
                with_stops(empty, feed.stops@, i as int) == Ok::<GraphView, ErrorView>(graph@),
            decreases stops - i,
        {
            let stop = &feed.stops[i];
            if stop.location_type == 0 {
                match graph.add_stop(stop.stop_id.clone(), stop.coordinates) {
                    Ok(()) => {},
                    Err(error) => {
                        proof {
                            assert(with_stops(empty, feed.stops@, i as int + 1) == Err::<
                                GraphView,
                                ErrorView,
                            >(error@));
                            lemma_stops_fail(empty, feed.stops@, i as int + 1, stops as int);
                        }
                        return Err(error);
                    },
                }
            }
            i = i + 1;
        }
        let ghost with_all_stops = graph@;
        let calendar = index_calendar(&feed.calendar);
        let trips: usize = feed.trips.len();
        let mut t: usize = 0;
        while t < trips
            invariant
                0 <= t <= trips,
                trips == feed.trips@.len(),
                empty == (GraphView { stops: Seq::empty(), edges: Seq::empty() }),
                graph.wf(),
                with_stops(empty, feed.stops@, feed.stops@.len() as int) == Ok::<
                    GraphView,
                    ErrorView,
                >(with_all_stops),
                forall|service: Seq<char>|
                    match calendar_position(feed.calendar@, service, feed.calendar@.len() as int) {
                        Some(position) => #[trigger] calendar@.contains_key(service)
                            && calendar@[service] == position && 0 <= position
                            < feed.calendar@.len(),
                        None => !calendar@.contains_key(service),
                    },
                with_trips(with_all_stops, feed.trips@, feed.calendar@, t as int) == Ok::<
                    GraphView,
                    ErrorView,
                >(graph@),
            decreases trips - t,
        {
            let trip = &feed.trips[t];
            let weekdays: [bool; 7] = match calendar.get(trip.service_id.as_str()) {
                Some(position) => feed.calendar[*position].weekdays,
                None => {
                    proof {
                        assert(!calendar@.contains_key(trip.service_id@));
                        assert(calendar_position(
                            feed.calendar@,
                            trip.service_id@,
                            feed.calendar@.len() as int,
                        ).is_none());
                        assert(with_trip(graph@, feed.trips@[t as int], feed.calendar@) == Err::<
                            GraphView,
                            ErrorView,
                        >(ErrorView::ParseError));
                        assert(with_trips(with_all_stops, feed.trips@, feed.calendar@, t as int + 1)
                            == Err::<GraphView, ErrorView>(ErrorView::ParseError));
                        lemma_trips_fail(
                            with_all_stops,
                            feed.trips@,
                            feed.calendar@,
                            t as int + 1,
                            trips as int,
                        );
                    }
                    return Err(Error::ParseError);
                },
            };
            let ghost before = graph@;
            proof {
                assert(calendar@.contains_key(trip.service_id@));
                assert(calendar_position(
                    feed.calendar@,
                    trip.service_id@,
                    feed.calendar@.len() as int,
                ).is_some());
            }
            match graph.add_trip(&trip.stop_times, weekdays) {
                Ok(()) => {
                    proof {
                        assert(with_trip(before, feed.trips@[t as int], feed.calendar@) == Ok::<
                            GraphView,
                            ErrorView,
                        >(graph@));
                    }
                },
                Err(error) => {
                    proof {
                        assert(with_trip(before, feed.trips@[t as int], feed.calendar@) == Err::<
                            GraphView,
                            ErrorView,
                        >(error@));
                        assert(with_trips(with_all_stops, feed.trips@, feed.calendar@, t as int + 1)
                            == Err::<GraphView, ErrorView>(error@));
                        lemma_trips_fail(
                            with_all_stops,
                            feed.trips@,
                            feed.calendar@,
                            t as int + 1,
                            trips as int,
                        );
                    }
                    return Err(error);
                },
            }
            t = t + 1;
        }
        Ok(graph)
    }
}

proof fn lemma_stops_fail(graph: GraphView, stops: Seq<Stop>, failed: int, upto: int)
    requires
        0 <= failed <= upto,
        with_stops(graph, stops, failed).is_err(),
    ensures
        with_stops(graph, stops, upto) == with_stops(graph, stops, failed),
    decreases upto - failed,
{
    if failed < upto {
        lemma_stops_fail(graph, stops, failed, upto - 1);
    }
}

proof fn lemma_hops_fail(
    graph: GraphView,
    calls: Seq<StopTime>,
    days: Seq<bool>,
    failed: int,
    upto: int,
)
    requires
        0 <= failed <= upto,
        with_hops(graph, calls, days, failed).is_err(),
    ensures
        with_hops(graph, calls, days, upto) == with_hops(graph, calls, days, failed),
    decreases upto - failed,
{
    if failed < upto {
        lemma_hops_fail(graph, calls, days, failed, upto - 1);
    }
}

proof fn lemma_trips_fail(
    graph: GraphView,
    trips: Seq<Trip>,
    calendar: Seq<Calendar>,
    failed: int,
    upto: int,
)
    requires
        0 <= failed <= upto,
        with_trips(graph, trips, calendar, failed).is_err(),
    ensures
        with_trips(graph, trips, calendar, upto) == with_trips(graph, trips, calendar, failed),
    decreases upto - failed,
{
    if failed < upto {
        lemma_trips_fail(graph, trips, calendar, failed, upto - 1);
    }
}

} // verus!
