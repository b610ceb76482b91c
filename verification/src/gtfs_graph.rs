//! The network as a graph: stops as nodes, scheduled hops as edges.
//!
//! Stops and edges live in two arenas. A stop lists its outgoing edges by their
//! position in the edge arena, and an edge names its arrival stop by its position
//! in the stop arena.

pub mod calendar;
pub mod dijkstras;
pub mod heatmap;
pub mod journey;
pub mod parser;
pub mod queue;

use crate::coords::Coordinates;
use crate::gtfs_graph::calendar::{
    date_in_range, date_of, date_of_instant, datetime_of, instant_in_range, lemma_from_week,
    lemma_next_valid_date, lemma_next_valid_date_least, next_valid_date, no_day, runs_on,
    ValidDays, UNIX_EPOCH_JULIAN_DAY,
};
use crate::gtfs_types::Day;
use crate::gtfs_types::LOCATION_TYPE_STOP_POINT;
use vstd::hash_map::StringHashMap;
use vstd::prelude::*;
use vstd::string::*;

verus! {

/// Times of day reach as far as the end of the day after the service day.
pub const MAX_TIME_OF_DAY: u32 = 172_800;

/// Why a graph could not be built or queried.
#[derive(Debug)]
pub enum Error {
    /// A stop with this id is in the graph already.
    DuplicateStop(String),
    /// An edge was to leave from a stop that is not in the graph.
    MissingDepartureStop(String),
    /// An edge was to arrive at a stop that is not in the graph.
    MissingArrivalStop(String),
    /// No stop has this id.
    MissingStop(String),
    /// The stop record is no physical boarding location.
    LocationTypeNotStop,
    /// A record of the feed is malformed or lacks a required field.
    ParseError,
}

/// What the graph's contracts say of an error: its kind, and the id that it names.
pub enum ErrorView {
    DuplicateStop(Seq<char>),
    MissingDepartureStop(Seq<char>),
    MissingArrivalStop(Seq<char>),
    MissingStop(Seq<char>),
    LocationTypeNotStop,
    ParseError,
}

impl View for Error {
    type V = ErrorView;

    open spec fn view(&self) -> ErrorView {
        match self {
            Error::DuplicateStop(id) => ErrorView::DuplicateStop(id@),
            Error::MissingDepartureStop(id) => ErrorView::MissingDepartureStop(id@),
            Error::MissingArrivalStop(id) => ErrorView::MissingArrivalStop(id@),
            Error::MissingStop(id) => ErrorView::MissingStop(id@),
            Error::LocationTypeNotStop => ErrorView::LocationTypeNotStop,
            Error::ParseError => ErrorView::ParseError,
        }
    }
}

/// The text that shows an error.
pub open spec fn error_message(error: ErrorView) -> Seq<char> {
    match error {
        ErrorView::DuplicateStop(id) => "Stop with id "@ + id + " already exsists in graph"@,
        ErrorView::MissingDepartureStop(id) => "Tried connecting edge to non existing departure node "@
            + id,
        ErrorView::MissingArrivalStop(id) => "Tried connecting edge to non existing arrival node "@
            + id,
        ErrorView::MissingStop(id) => "Couldn't find node with id: "@ + id,
        ErrorView::LocationTypeNotStop => "The stops location type is not Stop"@,
        ErrorView::ParseError => "Failed to parse"@,
    }
}

impl Error {
    /// The text that shows the error.
    pub fn to_string(&self) -> (text: String)
        ensures
            text@ == error_message(self@),
    {
        match self {
            Error::DuplicateStop(id) => {
                let mut text = "Stop with id ".to_owned();
                text.append(id.as_str());
                text.append(" already exsists in graph");
                text
            },
            Error::MissingDepartureStop(id) => {
                let mut text = "Tried connecting edge to non existing departure node ".to_owned();
                text.append(id.as_str());
                text
            },
            Error::MissingArrivalStop(id) => {
                let mut text = "Tried connecting edge to non existing arrival node ".to_owned();
                text.append(id.as_str());
                text
            },
            Error::MissingStop(id) => {
                let mut text = "Couldn't find node with id: ".to_owned();
                text.append(id.as_str());
                text
            },
            Error::LocationTypeNotStop => "The stops location type is not Stop".to_owned(),
            Error::ParseError => "Failed to parse".to_owned(),
        }
    }
}

/// What the graph's contracts say of an edge.
pub struct EdgeView {
    pub departure_time: u32,
    pub connected_stop: usize,
    pub weekdays: Seq<bool>,
}

impl EdgeView {
    /// The departure is a time of day and the edge runs on some day of the week.
    pub open spec fn wf(self) -> bool {
        &&& self.departure_time < 172_800
        &&& self.weekdays.len() == 7
        &&& !no_day(self.weekdays)
    }

    /// Whether the edge runs on the service day `date`.
    pub open spec fn departs(self, date: int) -> bool {
        runs_on(self.weekdays, date)
    }

    /// The instant at which the edge leaves on the service day `date`.
    pub open spec fn departure_on(self, date: int) -> int {
        datetime_of(self.departure_time as int, date)
    }

    /// The service day that is tried first for a traveller who waits at `now`: the day
    /// before, where the departure lies past midnight and the edge ran that day, else
    /// the day of `now`; from there the next day on which the edge runs.
    pub open spec fn candidate_date(self, now: int) -> int {
        let today = date_of(now);
        let first = if self.departure_time >= 86_400 && runs_on(self.weekdays, today - 1) {
            today - 1
        } else {
            today
        };
        next_valid_date(self.weekdays, first)
    }

    /// The instant at which the edge leaves on the service day that is tried first.
    pub open spec fn departure_datetime(self, now: int) -> int {
        self.departure_on(self.candidate_date(now))
    }

    /// The service day of the departure that a traveller who waits at `now` takes: the
    /// one tried first, unless that departure is missed, and then the next day after
    /// it on which the edge runs.
    pub open spec fn next_departure_date(self, now: int) -> int {
        let candidate = self.candidate_date(now);
        if self.departure_on(candidate) >= now {
            candidate
        } else {
            next_valid_date(self.weekdays, candidate + 1)
        }
    }

    /// The instant of the departure that a traveller who waits at `now` takes.
    pub open spec fn next_departure(self, now: int) -> int {
        self.departure_on(self.next_departure_date(now))
    }
}

/// The departure that a waiting traveller takes is a departure of the edge, is not
/// before `now`, and is less than nine days after it.
pub proof fn lemma_next_departure(edge: EdgeView, now: int)
    requires
        edge.wf(),
    ensures
        edge.departs(edge.next_departure_date(now)),
        now <= edge.next_departure(now) < now + 777_600,
        date_of(now) - 1 <= edge.candidate_date(now) <= date_of(now) + 6,
        edge.departs(edge.candidate_date(now)),
        edge.candidate_date(now) <= edge.next_departure_date(now) <= date_of(now) + 7,
{
    let today = date_of(now);
    let days = edge.weekdays;
    let first = if edge.departure_time >= 86_400 && runs_on(days, today - 1) {
        today - 1
    } else {
        today
    };
    lemma_next_valid_date(days, first);
    let candidate = edge.candidate_date(now);
    if first == today - 1 {
        assert(candidate == first);
    }
    lemma_next_valid_date(days, candidate + 1);
    assert((today - 2_440_588) * 86_400 <= now < (today - 2_440_588) * 86_400 + 86_400);
}

/// No departure of the edge that is not before `now` is earlier than the one that a
/// waiting traveller takes.
pub proof fn lemma_next_departure_least(edge: EdgeView, now: int, date: int)
    requires
        edge.wf(),
        edge.departs(date),
        edge.departure_on(date) >= now,
    ensures
        edge.next_departure(now) <= edge.departure_on(date),
{
    let today = date_of(now);
    let days = edge.weekdays;
    let first = if edge.departure_time >= 86_400 && runs_on(days, today - 1) {
        today - 1
    } else {
        today
    };
    assert((today - 2_440_588) * 86_400 <= now < (today - 2_440_588) * 86_400 + 86_400);
    assert(date >= today - 1);
    assert(date >= first);
    lemma_next_valid_date_least(days, first, date);
    let candidate = edge.candidate_date(now);
    if edge.departure_on(candidate) < now {
        assert(date != candidate);
        lemma_next_valid_date_least(days, candidate + 1, date);
    }
}

/// What the graph's contracts say of a stop.
pub struct StopView {
    pub id: Seq<char>,
    pub coordinates: Coordinates,
    pub edges: Seq<usize>,
}

/// What the graph's contracts say of a graph: its stops and its edges, each in the
/// order in which they were added.
pub struct GraphView {
    pub stops: Seq<StopView>,
    pub edges: Seq<EdgeView>,
}

impl GraphView {
    /// Whether some stop has the given id.
    pub open spec fn has_stop(self, id: Seq<char>) -> bool {
        exists|i: int| 0 <= i < self.stops.len() && self.stops[i].id == id
    }

    /// The position of the stop with the given id, where there is one.
    pub open spec fn index_of(self, id: Seq<char>) -> int {
        choose|i: int| 0 <= i < self.stops.len() && self.stops[i].id == id
    }

    /// No two stops share an id, every stop lies on the globe, every listed edge
    /// exists, and every edge is well formed, arrives at a stop of the graph and is
    /// listed at a stop.
    pub open spec fn wf(self) -> bool {
        &&& forall|i: int, j: int|
            0 <= i < j < self.stops.len() ==> self.stops[i].id != self.stops[j].id
        &&& forall|i: int| 0 <= i < self.stops.len() ==> (#[trigger] self.stops[i]).coordinates.valid()
        &&& forall|s: int, k: int|
            0 <= s < self.stops.len() && 0 <= k < self.stops[s].edges.len()
                ==> #[trigger] self.stops[s].edges[k] < self.edges.len()
        &&& forall|e: int|
            0 <= e < self.edges.len() ==> (#[trigger] self.edges[e]).wf()
                && self.edges[e].connected_stop < self.stops.len()
        &&& forall|e: int| 0 <= e < self.edges.len() ==> #[trigger] self.is_listed(e)
    }

    /// Whether the stop at position `s` lists the edge at position `e` among its
    /// outgoing edges.
    pub open spec fn leaves_from(self, s: int, e: int) -> bool {
        0 <= s < self.stops.len() && 0 <= e < self.edges.len() && exists|k: int|
            0 <= k < self.stops[s].edges.len() && #[trigger] self.stops[s].edges[k] as int == e
    }

    /// Whether the edge at position `e` is listed at some stop.
    pub open spec fn is_listed(self, e: int) -> bool {
        exists|s: int| self.leaves_from(s, e)
    }

    /// The graph with one more stop, which has no edges yet.
    pub open spec fn with_stop(self, id: Seq<char>, coordinates: Coordinates) -> GraphView {
        GraphView {
            stops: self.stops.push(StopView { id, coordinates, edges: Seq::empty() }),
            edges: self.edges,
        }
    }

    /// The graph with one more edge, listed last at the stop that it leaves from.
    pub open spec fn with_edge(self, from: int, edge: EdgeView) -> GraphView {
        GraphView {
            stops: self.stops.update(
                from,
                StopView {
                    id: self.stops[from].id,
                    coordinates: self.stops[from].coordinates,
                    edges: self.stops[from].edges.push(self.edges.len() as usize),
                },
            ),
            edges: self.edges.push(edge),
        }
    }
}

/// A scheduled hop to a stop: it leaves at a time of day, on some days of the week.
#[derive(Clone, Copy, Debug)]
pub struct Edge {
    pub(crate) departure_time: u32,
    pub(crate) connected_stop: usize,
    pub(crate) weekdays: ValidDays,
}

impl View for Edge {
    type V = EdgeView;

    open(crate) spec fn view(&self) -> EdgeView {
        EdgeView {
            departure_time: self.departure_time,
            connected_stop: self.connected_stop,
            weekdays: self.weekdays@,
        }
    }
}

impl Edge {
    /// An edge to the stop at position `connected_stop` of a graph.
    pub fn new(departure_time: u32, connected_stop: usize, weekdays: ValidDays) -> (edge: Edge)
        ensures
            edge@ == (EdgeView { departure_time, connected_stop, weekdays: weekdays@ }),
    {
        Edge { departure_time, connected_stop, weekdays }
    }

    /// The time of day at which the edge leaves, in seconds.
    pub fn departure_time(&self) -> (r: u32)
        ensures
            r == self@.departure_time,
    {
        self.departure_time
    }

    /// The position in the graph of the stop at which the edge arrives.
    pub fn connected_stop(&self) -> (r: usize)
        ensures
            r == self@.connected_stop,
    {
        self.connected_stop
    }

    /// The days of the week on which the edge runs.
    pub fn weekdays(&self) -> (r: ValidDays)
        ensures
            r@ == self@.weekdays,
    {
        self.weekdays
    }

    /// The instant that lies `time` seconds after the midnight that starts `date`.
    /// A time of a day or more runs on into the following days.
    pub fn to_datetime(time: u32, date: i64) -> (instant: i64)
        requires
            date_in_range(date as int),
        ensures
            instant == datetime_of(time as int, date as int),
    {
        let days: i64 = date - UNIX_EPOCH_JULIAN_DAY;
        let seconds: i64 = time as i64;
        days * 86_400 + seconds
    }

    /// Says on which days of the week the edge runs, one day at a time.
    pub fn set_day_validity(&mut self, day: Day, is_valid: bool)
        ensures
            final(self)@.weekdays == old(self)@.weekdays.update(day.position(), is_valid),
            final(self)@.departure_time == old(self)@.departure_time,
            final(self)@.connected_stop == old(self)@.connected_stop,
    {
        self.weekdays.set(day, is_valid);
    }

    /// The earliest date that is not before `date` and on which the edge runs.
    pub fn get_next_valid_date(&self, date: i64) -> (next: i64)
        requires
            !no_day(self@.weekdays),
            date_in_range(date as int),
            date_in_range(date as int + 6),
        ensures
            next == next_valid_date(self@.weekdays, date as int),
            date <= next <= date + 6,
            runs_on(self@.weekdays, next as int),
            forall|d: int| date <= d < next ==> !runs_on(self@.weekdays, d),
    {
        self.weekdays.next_valid(date)
    }

    /// The service day that is tried first for a traveller who waits at `now`.
    fn candidate_date(&self, now: i64) -> (date: i64)
        requires
            self@.wf(),
            instant_in_range(now as int),
        ensures
            date == self@.candidate_date(now as int),
            -49_999_999_000_010 <= date <= 49_999_999_000_010,
    {
        let today: i64 = date_of_instant(now);
        let first: i64 = if self.departure_time >= 86_400 && self.weekdays.runs_on(today - 1) {
            today - 1
        } else {
            today
        };
        self.weekdays.next_valid(first)
    }

    /// The instant at which the edge leaves on the service day that is tried first for
    /// a traveller who waits at `current_date_time`. It may lie before that instant.
    pub fn departure_datetime(&self, current_date_time: i64) -> (instant: i64)
        requires
            self@.wf(),
            instant_in_range(current_date_time as int),
        ensures
            instant == self@.departure_datetime(current_date_time as int),
    {
        let date: i64 = self.candidate_date(current_date_time);
        Edge::to_datetime(self.departure_time, date)
    }

    /// The instant at which a traveller who takes the edge on the service day that is
    /// tried first arrives: the instant of the departure, as no arrival time is kept.
    pub fn arrival_datetime(&self, current_date_time: i64) -> (instant: i64)
        requires
            self@.wf(),
            instant_in_range(current_date_time as int),
        ensures
            instant == self@.departure_datetime(current_date_time as int),
    {
        self.departure_datetime(current_date_time)
    }

    /// The instant of the earliest departure of the edge that is not before `now`.
    pub fn next_departure(&self, now: i64) -> (instant: i64)
        requires
            self@.wf(),
            instant_in_range(now as int),
        ensures
            instant == self@.next_departure(now as int),
            now <= instant < now + 777_600,
    {
        proof {
            lemma_next_departure(self@, now as int);
        }
        let candidate: i64 = self.candidate_date(now);
        let tried: i64 = Edge::to_datetime(self.departure_time, candidate);
        if tried >= now {
            tried
        } else {
            let date: i64 = self.weekdays.next_valid(candidate + 1);
            Edge::to_datetime(self.departure_time, date)
        }
    }
}

/// A physical boarding location.
#[derive(Debug)]
pub struct Stop {
    pub id: String,
    pub coordinates: Coordinates,
    pub(crate) edges: Vec<usize>,
}

impl View for Stop {
    type V = StopView;

    open(crate) spec fn view(&self) -> StopView {
        StopView { id: self.id@, coordinates: self.coordinates, edges: self.edges@ }
    }
}

impl Stop {
    /// The stop of a record of the feed, without edges; only a record of a physical
    /// boarding location on the globe gives one.
    pub fn try_from(stop: crate::gtfs_types::Stop) -> (r: Result<Stop, Error>)
        ensures
            match r {
                Ok(made) => stop.location_type == 0 && stop.coordinates.valid() && made@
                    == (StopView {
                    id: stop.stop_id@,
                    coordinates: stop.coordinates,
                    edges: Seq::empty(),
                }),
                Err(Error::LocationTypeNotStop) => stop.location_type != 0,
                Err(Error::ParseError) => stop.location_type == 0 && !stop.coordinates.valid(),
                Err(_) => false,
            },
    {
        if stop.location_type != LOCATION_TYPE_STOP_POINT {
            return Err(Error::LocationTypeNotStop);
        }
        if !stop.coordinates.is_valid() {
            return Err(Error::ParseError);
        }
        Ok(Stop { id: stop.stop_id, coordinates: stop.coordinates, edges: Vec::new() })
    }

    /// The positions in the graph of the edges that leave the stop.
    pub fn edges(&self) -> (r: &Vec<usize>)
        ensures
            r@ == self@.edges,
    {
        &self.edges
    }
}

/// The stops of a network and the scheduled hops between them.
pub struct GtfsGraph {
    pub(crate) stops: Vec<Stop>,
    pub(crate) edges: Vec<Edge>,
    pub(crate) index: StringHashMap<usize>,
}

impl View for GtfsGraph {
    type V = GraphView;

    open(crate) spec fn view(&self) -> GraphView {
        GraphView {
            stops: Seq::new(self.stops@.len(), |i: int| self.stops@[i]@),
            edges: Seq::new(self.edges@.len(), |i: int| self.edges@[i]@),
        }
    }
}

impl GtfsGraph {
    /// The graph is well formed, and its index finds each stop by its id.
    pub open(crate) spec fn wf(&self) -> bool {
        &&& self@.wf()
        &&& forall|i: int|
            0 <= i < self.stops@.len() ==> self.index@.contains_key(
                #[trigger] self.stops@[i].id@,
            ) && self.index@[self.stops@[i].id@] == i
        &&& forall|id: Seq<char>| #[trigger]
            self.index@.contains_key(id) ==> self.index@[id] < self.stops@.len()
                && self.stops@[self.index@[id] as int].id@ == id
    }

    /// In a well-formed graph the index holds exactly the ids of the stops, each with
    /// the position of its stop.
    pub(crate) proof fn lemma_index(&self, id: Seq<char>)
        requires
            self.wf(),
        ensures
            self@.has_stop(id) == self.index@.contains_key(id),
            self@.has_stop(id) ==> 0 <= self@.index_of(id) < self@.stops.len()
                && self@.stops[self@.index_of(id)].id == id && self.index@[id]
                == self@.index_of(id),
    {
        if self.index@.contains_key(id) {
            let i = self.index@[id] as int;
            assert(self@.stops[i].id == id);
        }
        if self@.has_stop(id) {
            let i = self@.index_of(id);
            assert(self.stops@[i].id@ == id);
            assert(self.index@.contains_key(self.stops@[i].id@));
            let j = self.index@[id] as int;
            assert(self@.stops[j].id == id);
            if i != j {
                if i < j {
                    assert(self@.stops[i].id != self@.stops[j].id);
                } else {
                    assert(self@.stops[j].id != self@.stops[i].id);
                }
            }
        }
    }

    /// A graph without stops or edges.
    pub fn new() -> (graph: GtfsGraph)
        ensures
            graph.wf(),
            graph@.stops.len() == 0,
            graph@.edges.len() == 0,
    {
        GtfsGraph { stops: Vec::new(), edges: Vec::new(), index: StringHashMap::new() }
    }

    /// Adds a stop with the given id and coordinates, unless the coordinates lie off
    /// the globe or the graph holds a stop with that id already.
    pub(crate) fn add_stop(&mut self, id: String, coordinates: Coordinates) -> (r: Result<
        (),
        Error,
    >)
        requires
            old(self).wf(),
        ensures
            final(self).wf(),
            match r {
                Ok(()) => coordinates.valid() && !old(self)@.has_stop(id@) && final(self)@ == old(
                    self,
                )@.with_stop(id@, coordinates),
                Err(Error::ParseError) => !coordinates.valid() && final(self)@ == old(self)@,
                Err(Error::DuplicateStop(named)) => coordinates.valid() && old(self)@.has_stop(id@)
                    && named@ == id@ && final(self)@ == old(self)@,
                Err(_) => false,
            },
    {
        if !coordinates.is_valid() {
            return Err(Error::ParseError);
        }
        proof {
            self.lemma_index(id@);
        }
        if self.index.contains_key(id.as_str()) {
            return Err(Error::DuplicateStop(id));
        }
        let position: usize = self.stops.len();
        let key = id.clone();
        self.index.insert(key, position);
        self.stops.push(Stop { id, coordinates, edges: Vec::new() });
        proof {
            let before = old(self)@;
            let after = self@;
            assert(after.stops =~= before.with_stop(id@, coordinates).stops);
            assert(after.edges =~= before.edges);
            assert forall|i: int, j: int| 0 <= i < j < after.stops.len() implies after.stops[i].id
                != after.stops[j].id by {
                if j == position {
                    assert(before.stops[i].id == old(self).stops@[i].id@);
                    assert(old(self).index@.contains_key(old(self).stops@[i].id@));
                } else {
                    assert(before.stops[i].id != before.stops[j].id);
                }
            }
            assert forall|e: int| 0 <= e < after.edges.len() implies #[trigger] after.is_listed(
                e,
            ) by {
                assert(before.is_listed(e));
                let s = choose|s: int| before.leaves_from(s, e);
                assert(after.stops[s] == before.stops[s]);
                assert(after.leaves_from(s, e));
            }
            assert forall|s: int, k: int|
                0 <= s < after.stops.len() && 0 <= k < after.stops[s].edges.len()
                    implies #[trigger] after.stops[s].edges[k] < after.edges.len() by {
                assert(after.stops[s] == before.stops[s]);
            }
            assert forall|i: int| 0 <= i < after.stops.len() implies (
            #[trigger] after.stops[i]).coordinates.valid() by {
                if i < position {
                    assert(after.stops[i] == before.stops[i]);
                }
            }
            assert forall|i: int| 0 <= i < self.stops@.len() implies self.index@.contains_key(
                #[trigger] self.stops@[i].id@,
            ) && self.index@[self.stops@[i].id@] == i by {
                if i < position {
                    assert(old(self).index@.contains_key(old(self).stops@[i].id@));
                }
            }
        }
        Ok(())
    }

    /// Adds a stop from its record in the feed. Records that are no boarding
    /// locations are refused, and so are coordinates off the globe and an id that the
    /// graph holds already.
    pub fn insert_stop(&mut self, stop: crate::gtfs_types::Stop) -> (r: Result<(), Error>)
        requires
            old(self).wf(),
        ensures
            final(self).wf(),
            match r {
                Ok(()) => stop.location_type == 0 && stop.coordinates.valid() && !old(
                    self,
                )@.has_stop(stop.stop_id@) && final(self)@ == old(self)@.with_stop(
                    stop.stop_id@,
                    stop.coordinates,
                ),
                Err(Error::LocationTypeNotStop) => stop.location_type != 0 && final(self)@ == old(
                    self,
                )@,
                Err(Error::ParseError) => stop.location_type == 0 && !stop.coordinates.valid()
                    && final(self)@ == old(self)@,
                Err(Error::DuplicateStop(id)) => stop.location_type == 0
                    && stop.coordinates.valid() && old(self)@.has_stop(stop.stop_id@) && id@
                    == stop.stop_id@ && final(self)@ == old(self)@,
                Err(_) => false,
            },
    {
        if stop.location_type != LOCATION_TYPE_STOP_POINT {
            return Err(Error::LocationTypeNotStop);
        }
        self.add_stop(stop.stop_id, stop.coordinates)
    }

    /// Adds an edge that leaves one stop at a time of day, on the given days of the
    /// week (Monday first), and arrives at another stop.
    pub fn connect_stops(
        &mut self,
        departure_stop_id: &str,
        departure_time: u32,
        arrival_stop_id: &str,
        weekdays: [bool; 7],
    ) -> (r: Result<(), Error>)
        requires
            old(self).wf(),
        ensures
            final(self).wf(),
            match r {
                Ok(()) => {
                    &&& old(self)@.has_stop(departure_stop_id@)
                    &&& old(self)@.has_stop(arrival_stop_id@)
                    &&& departure_time < 172_800
                    &&& !no_day(weekdays@)
                    &&& final(self)@ == old(self)@.with_edge(
                        old(self)@.index_of(departure_stop_id@),
                        EdgeView {
                            departure_time,
                            connected_stop: old(self)@.index_of(arrival_stop_id@) as usize,
                            weekdays: weekdays@,
                        },
                    )
                },
                Err(Error::MissingDepartureStop(id)) => {
                    &&& !old(self)@.has_stop(departure_stop_id@)
                    &&& id@ == departure_stop_id@
                    &&& final(self)@ == old(self)@
                },
                Err(Error::MissingArrivalStop(id)) => {
                    &&& old(self)@.has_stop(departure_stop_id@)
                    &&& !old(self)@.has_stop(arrival_stop_id@)
                    &&& id@ == arrival_stop_id@
                    &&& final(self)@ == old(self)@
                },
                Err(Error::ParseError) => {
                    &&& old(self)@.has_stop(departure_stop_id@)
                    &&& old(self)@.has_stop(arrival_stop_id@)
                    &&& (departure_time >= 172_800 || no_day(weekdays@))
                    &&& final(self)@ == old(self)@
                },
                Err(_) => false,
            },
    {
        proof {
            self.lemma_index(departure_stop_id@);
            self.lemma_index(arrival_stop_id@);
        }
        let from: usize = match self.index.get(departure_stop_id) {
            Some(position) => *position,
            None => {
                return Err(Error::MissingDepartureStop(departure_stop_id.to_owned()));
            },
        };
        let to: usize = match self.index.get(arrival_stop_id) {
            Some(position) => *position,
            None => {
                return Err(Error::MissingArrivalStop(arrival_stop_id.to_owned()));
            },
        };
        let days = ValidDays::from(weekdays);
        proof {
            lemma_from_week(weekdays);
        }
        if departure_time >= MAX_TIME_OF_DAY || days.is_empty() {
            return Err(Error::ParseError);
        }
        let position: usize = self.edges.len();
        let edge = Edge { departure_time, connected_stop: to, weekdays: days };
        self.edges.push(edge);
        self.stops[from].edges.push(position);
        proof {
            let before = old(self)@;
            let after = self@;
            let expected = before.with_edge(from as int, edge@);
            assert(after.edges =~= expected.edges);
            assert forall|i: int| 0 <= i < after.stops.len() implies after.stops[i]
                == expected.stops[i] by {
                if i == from {
                    assert(after.stops[i].edges =~= expected.stops[i].edges);
                }
            }
            assert(after.stops =~= expected.stops);
            assert forall|s: int, k: int|
                0 <= s < after.stops.len() && 0 <= k < after.stops[s].edges.len()
                    implies #[trigger] after.stops[s].edges[k] < after.edges.len() by {
                if s == from && k == before.stops[s].edges.len() {
                } else {
                    assert(after.stops[s].edges[k] == before.stops[s].edges[k]);
                }
            }
            assert forall|e: int| 0 <= e < after.edges.len() implies #[trigger] after.is_listed(
                e,
            ) by {
                if e == position {
                    assert(after.stops[from as int].edges[before.stops[from as int].edges.len() as int]
                        == position);
                    assert(after.leaves_from(from as int, e));
                } else {
                    assert(before.is_listed(e));
                    let s = choose|s: int| before.leaves_from(s, e);
                    let k = choose|k: int|
                        0 <= k < before.stops[s].edges.len() && #[trigger] before.stops[s].edges[k]
                            as int == e;
                    assert(after.stops[s].edges[k] as int == e);
                    assert(after.leaves_from(s, e));
                }
            }
            assert forall|e: int| 0 <= e < after.edges.len() implies (#[trigger] after.edges[e]).wf()
                && after.edges[e].connected_stop < after.stops.len() by {
                if e < position {
                    assert(before.edges[e].wf());
                }
            }
            assert forall|i: int, j: int| 0 <= i < j < after.stops.len() implies after.stops[i].id
                != after.stops[j].id by {
                assert(before.stops[i].id != before.stops[j].id);
            }
            assert forall|i: int| 0 <= i < after.stops.len() implies (
            #[trigger] after.stops[i]).coordinates.valid() by {
                assert(before.stops[i].coordinates.valid());
            }
            assert forall|i: int| 0 <= i < self.stops@.len() implies self.index@.contains_key(
                #[trigger] self.stops@[i].id@,
            ) && self.index@[self.stops@[i].id@] == i by {
                assert(old(self).index@.contains_key(old(self).stops@[i].id@));
            }
        }
        Ok(())
    }

    /// The stop with the given id, if the graph has one.
    pub fn get_stop(&self, id: &str) -> (r: Option<&Stop>)
        requires
            self.wf(),
        ensures
            match r {
                Some(stop) => self@.has_stop(id@) && stop@ == self@.stops[self@.index_of(id@)],
                None => !self@.has_stop(id@),
            },
    {
        proof {
            self.lemma_index(id@);
        }
        match self.index.get(id) {
            Some(position) => Some(&self.stops[*position]),
            None => None,
        }
    }

    /// The edge at a position of the edge arena, if there is one.
    pub fn get_edge(&self, position: usize) -> (r: Option<&Edge>)
        ensures
            match r {
                Some(edge) => position < self@.edges.len() && edge@ == self@.edges[position as int],
                None => position >= self@.edges.len(),
            },
    {
        if position < self.edges.len() {
            Some(&self.edges[position])
        } else {
            None
        }
    }

    /// The stops of the graph, in the order in which they were added.
    pub fn get_stops(&self) -> (r: &Vec<Stop>)
        ensures
            r@.len() == self@.stops.len(),
            forall|i: int| 0 <= i < r@.len() ==> (#[trigger] r@[i])@ == self@.stops[i],
    {
        &self.stops
    }
}

} // verus!
