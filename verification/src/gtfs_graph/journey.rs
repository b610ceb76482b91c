//! What it means to travel through the network, and what a reachability table is.
//!
//! A journey starts at a stop at an instant and takes edges one after another. Each
//! edge is taken on a service day on which it runs, at a departure that is not before
//! the instant at which the traveller stands at the stop. Taking an edge puts the
//! traveller at its arrival stop at the instant of the departure: edges carry no
//! arrival time of their own.

use crate::gtfs_graph::{lemma_next_departure, lemma_next_departure_least, GraphView};
use vstd::prelude::*;

verus! {

/// One hop of a journey: an edge, by its position, and the service day on which it
/// is taken.
pub struct Leg {
    pub edge: int,
    pub date: int,
}

impl GraphView {
    /// The stop at which a journey from `origin` stands after its legs.
    pub open spec fn journey_stop(self, origin: int, legs: Seq<Leg>) -> int {
        if legs.len() == 0 {
            origin
        } else {
            self.edges[legs.last().edge].connected_stop as int
        }
    }

    /// The instant at which a journey that started at `start` stands after its legs.
    pub open spec fn journey_instant(self, start: int, legs: Seq<Leg>) -> int {
        if legs.len() == 0 {
            start
        } else {
            self.edges[legs.last().edge].departure_on(legs.last().date)
        }
    }

    /// Whether the legs make a journey from the stop `origin` at the instant `start`.
    pub open spec fn is_journey(self, origin: int, start: int, legs: Seq<Leg>) -> bool
        decreases legs.len(),
    {
        if legs.len() == 0 {
            0 <= origin < self.stops.len()
        } else {
            let before = legs.drop_last();
            let leg = legs.last();
            &&& self.is_journey(origin, start, before)
            &&& self.leaves_from(self.journey_stop(origin, before), leg.edge)
            &&& self.edges[leg.edge].departs(leg.date)
            &&& self.edges[leg.edge].departure_on(leg.date) >= self.journey_instant(start, before)
        }
    }

    /// Whether some journey from `origin` at `start` stands at `stop` at `instant`.
    pub open spec fn reaches(self, origin: int, start: int, stop: int, instant: int) -> bool {
        exists|legs: Seq<Leg>|
            #![trigger self.is_journey(origin, start, legs)]
            self.is_journey(origin, start, legs) && self.journey_stop(origin, legs) == stop
                && self.journey_instant(start, legs) == instant
    }

    /// Whether `instant` is the earliest at which any journey from `origin` at `start`
    /// stands at `stop`.
    pub open spec fn is_earliest(self, origin: int, start: int, stop: int, instant: int) -> bool {
        &&& self.reaches(origin, start, stop, instant)
        &&& forall|other: int| #[trigger]
            self.reaches(origin, start, stop, other) ==> instant <= other
    }

    /// Whether no journey from `origin` at `start` ever stands at `stop`.
    pub open spec fn unreachable(self, origin: int, start: int, stop: int) -> bool {
        forall|instant: int| !#[trigger] self.reaches(origin, start, stop, instant)
    }

    /// Whether a table, which holds one entry for each stop by its position, gives for
    /// every stop that a journey from `origin` at `start` can stand at the seconds
    /// from `start` to the earliest instant at which one does, and nothing for the
    /// other stops.
    pub open spec fn is_reachability(
        self,
        origin: int,
        start: int,
        table: Seq<Option<u64>>,
    ) -> bool {
        &&& table.len() == self.stops.len()
        &&& forall|stop: int|
            0 <= stop < self.stops.len() ==> match #[trigger] table[stop] {
                Some(duration) => self.is_earliest(origin, start, stop, start + duration),
                None => self.unreachable(origin, start, stop),
            }
    }

    /// Whether a table by stop id gives for every stop that a journey from the stop
    /// `origin` at `start` can stand at the seconds from `start` to the earliest
    /// instant at which one does, and holds no other key.
    pub open spec fn is_reachability_table(
        self,
        origin: Seq<char>,
        start: int,
        table: Map<Seq<char>, u64>,
    ) -> bool {
        &&& self.has_stop(origin)
        &&& forall|id: Seq<char>| #[trigger]
            table.contains_key(id) ==> self.has_stop(id) && self.is_earliest(
                self.index_of(origin),
                start,
                self.index_of(id),
                start + table[id],
            )
        &&& forall|id: Seq<char>|
            self.has_stop(id) && !#[trigger] table.contains_key(id) ==> self.unreachable(
                self.index_of(origin),
                start,
                self.index_of(id),
            )
    }

    /// Whether a table by position is closed under taking edges: the origin stands at
    /// zero, and from every stop in the table each of its edges, taken at the next
    /// departure, leads to a stop in the table at no later an instant.
    pub open spec fn is_closed(self, origin: int, start: int, table: Seq<Option<u64>>) -> bool {
        &&& table.len() == self.stops.len()
        &&& 0 <= origin < self.stops.len()
        &&& table[origin] == Some(0u64)
        &&& forall|stop: int, k: int|
            #![trigger table[stop], self.stops[stop].edges[k]]
            0 <= stop < self.stops.len() && table[stop].is_some() && 0 <= k
                < self.stops[stop].edges.len() ==> self.edge_covered(
                start,
                table,
                stop,
                self.stops[stop].edges[k] as int,
            )
    }

    /// Whether the table holds the arrival stop of an edge at an instant that is not
    /// after the next departure of that edge for a traveller who stands at `stop` as
    /// the table says.
    pub open spec fn edge_covered(
        self,
        start: int,
        table: Seq<Option<u64>>,
        stop: int,
        edge: int,
    ) -> bool {
        let to = self.edges[edge].connected_stop as int;
        table[to].is_some() && start + table[to].unwrap() <= self.edges[edge].next_departure(
            start + table[stop].unwrap(),
        )
    }
}

/// A journey ends at a stop of the graph.
pub proof fn lemma_journey_stop(graph: GraphView, origin: int, start: int, legs: Seq<Leg>)
    requires
        graph.wf(),
        graph.is_journey(origin, start, legs),
    ensures
        0 <= graph.journey_stop(origin, legs) < graph.stops.len(),
        start <= graph.journey_instant(start, legs),
    decreases legs.len(),
{
    if legs.len() > 0 {
        lemma_journey_stop(graph, origin, start, legs.drop_last());
        assert(graph.edges[legs.last().edge].wf());
    }
}

/// A journey with one more leg, taken at a departure of an edge that leaves from the
/// stop where the journey stands, is a journey.
pub proof fn lemma_extend_journey(
    graph: GraphView,
    origin: int,
    start: int,
    legs: Seq<Leg>,
    leg: Leg,
)
    requires
        graph.is_journey(origin, start, legs),
        graph.leaves_from(graph.journey_stop(origin, legs), leg.edge),
        graph.edges[leg.edge].departs(leg.date),
        graph.edges[leg.edge].departure_on(leg.date) >= graph.journey_instant(start, legs),
    ensures
        graph.is_journey(origin, start, legs.push(leg)),
        graph.journey_stop(origin, legs.push(leg)) == graph.edges[leg.edge].connected_stop,
        graph.journey_instant(start, legs.push(leg)) == graph.edges[leg.edge].departure_on(
            leg.date,
        ),
{
    assert(legs.push(leg).drop_last() =~= legs);
}

/// From a stop that can be reached at an instant, every edge of that stop leads at
/// its next departure to its arrival stop.
pub proof fn lemma_reaches_next(
    graph: GraphView,
    origin: int,
    start: int,
    stop: int,
    instant: int,
    edge: int,
)
    requires
        graph.wf(),
        graph.reaches(origin, start, stop, instant),
        graph.leaves_from(stop, edge),
    ensures
        graph.reaches(
            origin,
            start,
            graph.edges[edge].connected_stop as int,
            graph.edges[edge].next_departure(instant),
        ),
{
    let legs = choose|legs: Seq<Leg>|
        #![trigger graph.is_journey(origin, start, legs)]
        graph.is_journey(origin, start, legs) && graph.journey_stop(origin, legs) == stop
            && graph.journey_instant(start, legs) == instant;
    assert(graph.edges[edge].wf());
    lemma_next_departure(graph.edges[edge], instant);
    let leg = Leg { edge, date: graph.edges[edge].next_departure_date(instant) };
    lemma_extend_journey(graph, origin, start, legs, leg);
    assert(graph.is_journey(origin, start, legs.push(leg)));
}

/// In a closed table every journey ends at a stop that the table holds, and not
/// before the instant that the table gives for it.
pub proof fn lemma_closed_bounds_journey(
    graph: GraphView,
    origin: int,
    start: int,
    table: Seq<Option<u64>>,
    legs: Seq<Leg>,
)
    requires
        graph.wf(),
        graph.is_closed(origin, start, table),
        graph.is_journey(origin, start, legs),
    ensures
        0 <= graph.journey_stop(origin, legs) < graph.stops.len(),
        table[graph.journey_stop(origin, legs)].is_some(),
        start + table[graph.journey_stop(origin, legs)].unwrap() <= graph.journey_instant(
            start,
            legs,
        ),
    decreases legs.len(),
{
    lemma_journey_stop(graph, origin, start, legs);
    if legs.len() > 0 {
        let before = legs.drop_last();
        let leg = legs.last();
        lemma_closed_bounds_journey(graph, origin, start, table, before);
        let stop = graph.journey_stop(origin, before);
        let edge = graph.edges[leg.edge];
        assert(edge.wf());
        let k = choose|k: int|
            0 <= k < graph.stops[stop].edges.len() && #[trigger] graph.stops[stop].edges[k] as int
                == leg.edge;
        assert(graph.edge_covered(start, table, stop, graph.stops[stop].edges[k] as int));
        lemma_next_departure_least(edge, start + table[stop].unwrap(), leg.date);
    }
}

/// A closed table whose every entry is the end of some journey is the reachability
/// table.
pub proof fn lemma_closed_is_reachability(
    graph: GraphView,
    origin: int,
    start: int,
    table: Seq<Option<u64>>,
)
    requires
        graph.wf(),
        graph.is_closed(origin, start, table),
        forall|stop: int|
            0 <= stop < graph.stops.len() && (#[trigger] table[stop]).is_some() ==> graph.reaches(
                origin,
                start,
                stop,
                start + table[stop].unwrap(),
            ),
    ensures
        graph.is_reachability(origin, start, table),
{
    assert forall|stop: int| 0 <= stop < graph.stops.len() implies match #[trigger] table[stop] {
        Some(duration) => graph.is_earliest(origin, start, stop, start + duration),
        None => graph.unreachable(origin, start, stop),
    } by {
        assert forall|instant: int| #[trigger]
            graph.reaches(origin, start, stop, instant) implies table[stop].is_some() && start
            + table[stop].unwrap() <= instant by {
            let legs = choose|legs: Seq<Leg>|
                #![trigger graph.is_journey(origin, start, legs)]
                graph.is_journey(origin, start, legs) && graph.journey_stop(origin, legs) == stop
                    && graph.journey_instant(start, legs) == instant;
            lemma_closed_bounds_journey(graph, origin, start, table, legs);
        }
    }
}

/// In a well-formed graph a stop is found under its id at its own position.
pub proof fn lemma_index_of(graph: GraphView, position: int)
    requires
        graph.wf(),
        0 <= position < graph.stops.len(),
    ensures
        graph.has_stop(graph.stops[position].id),
        graph.index_of(graph.stops[position].id) == position,
{
    let id = graph.stops[position].id;
    let found = graph.index_of(id);
    if found < position {
        assert(graph.stops[found].id != graph.stops[position].id);
    } else if position < found {
        assert(graph.stops[position].id != graph.stops[found].id);
    }
}

/// Every edge of a well-formed graph arrives at a stop of the graph and runs on at
/// least one day of the week.
pub proof fn lemma_edges_valid(graph: GraphView, edge: int)
    requires
        graph.wf(),
        0 <= edge < graph.edges.len(),
    ensures
        graph.edges[edge].connected_stop < graph.stops.len(),
        graph.has_stop(graph.stops[graph.edges[edge].connected_stop as int].id),
        !crate::gtfs_graph::calendar::no_day(graph.edges[edge].weekdays),
{
    assert(graph.edges[edge].wf());
    lemma_index_of(graph, graph.edges[edge].connected_stop as int);
}

/// The origin of a reachability table stands in it at zero seconds.
pub proof fn lemma_origin_at_zero(
    graph: GraphView,
    origin: Seq<char>,
    start: int,
    table: Map<Seq<char>, u64>,
)
    requires
        graph.wf(),
        graph.is_reachability_table(origin, start, table),
    ensures
        table.contains_key(origin),
        table[origin] == 0,
{
    let position = graph.index_of(origin);
    assert(graph.is_journey(position, start, Seq::empty()));
    assert(graph.journey_stop(position, Seq::<Leg>::empty()) == position);
    assert(graph.journey_instant(start, Seq::<Leg>::empty()) == start);
    assert(graph.reaches(position, start, position, start));
    if !table.contains_key(origin) {
        assert(graph.unreachable(position, start, position));
    }
}

/// Whichever edge leaves a stop of a reachability table, and on whichever service
/// day, if it leaves no earlier than the table's traveller stands at that stop, then
/// its arrival stop is in the table with a duration that ends no later than that
/// departure.
pub proof fn lemma_table_monotone(
    graph: GraphView,
    origin: Seq<char>,
    start: int,
    table: Map<Seq<char>, u64>,
    stop: Seq<char>,
    edge: int,
    date: int,
)
    requires
        graph.wf(),
        graph.is_reachability_table(origin, start, table),
        table.contains_key(stop),
        graph.leaves_from(graph.index_of(stop), edge),
        graph.edges[edge].departs(date),
        graph.edges[edge].departure_on(date) >= start + table[stop],
    ensures
        table.contains_key(graph.stops[graph.edges[edge].connected_stop as int].id),
        start + table[graph.stops[graph.edges[edge].connected_stop as int].id]
            <= graph.edges[edge].departure_on(date),
{
    let from = graph.index_of(stop);
    let o = graph.index_of(origin);
    let to = graph.edges[edge].connected_stop as int;
    assert(graph.edges[edge].wf());
    lemma_index_of(graph, to);
    let legs = choose|legs: Seq<Leg>|
        #![trigger graph.is_journey(o, start, legs)]
        graph.is_journey(o, start, legs) && graph.journey_stop(o, legs) == from
            && graph.journey_instant(start, legs) == start + table[stop];
    lemma_extend_journey(graph, o, start, legs, Leg { edge, date });
    assert(graph.is_journey(o, start, legs.push(Leg { edge, date })));
    assert(graph.reaches(o, start, to, graph.edges[edge].departure_on(date)));
}

/// A graph, an origin and a start instant have one reachability table only.
pub proof fn lemma_table_unique(
    graph: GraphView,
    origin: Seq<char>,
    start: int,
    first: Map<Seq<char>, u64>,
    second: Map<Seq<char>, u64>,
)
    requires
        graph.wf(),
        graph.is_reachability_table(origin, start, first),
        graph.is_reachability_table(origin, start, second),
    ensures
        first == second,
{
    let o = graph.index_of(origin);
    assert forall|id: Seq<char>| first.contains_key(id) == second.contains_key(id) by {
        if first.contains_key(id) && !second.contains_key(id) {
            assert(graph.reaches(o, start, graph.index_of(id), start + first[id]));
        }
        if second.contains_key(id) && !first.contains_key(id) {
            assert(graph.reaches(o, start, graph.index_of(id), start + second[id]));
        }
    }
    assert forall|id: Seq<char>| first.contains_key(id) implies first[id] == second[id] by {
        assert(second.contains_key(id));
        assert(graph.reaches(o, start, graph.index_of(id), start + first[id]));
        assert(graph.reaches(o, start, graph.index_of(id), start + second[id]));
    }
    assert(first =~= second);
}

} // verus!
