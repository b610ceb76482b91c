//! Earliest arrival from one stop at every other, by a shortest-path search in which
//! the cost of an edge depends on the instant at which the traveller reaches it.

use crate::gtfs_graph::journey::{
    lemma_closed_is_reachability, lemma_index_of, lemma_reaches_next,
};
use crate::gtfs_graph::queue::{popped, pushed, MinQueue};
use crate::gtfs_graph::{lemma_next_departure, Error, GraphView, GtfsGraph};
use crate::dijkstras::TimeLookupTable;
use vstd::hash_map::StringHashMap;
use vstd::prelude::*;

verus! {

/// The search takes graphs of at most this many stops.
pub const MAX_STOPS: usize = 4_294_967_295;

/// The search takes start instants within this many seconds of the epoch.
pub const MAX_START: i64 = 1_000_000_000_000_000_000;

/// The number of stops that a table does not hold.
pub open spec fn count_none(table: Seq<Option<u64>>) -> nat
    decreases table.len(),
{
    if table.len() == 0 {
        0
    } else {
        count_none(table.drop_last()) + if table.last().is_none() {
            1nat
        } else {
            0nat
        }
    }
}

proof fn lemma_count_none_bound(table: Seq<Option<u64>>)
    ensures
        count_none(table) <= table.len(),
    decreases table.len(),
{
    if table.len() > 0 {
        lemma_count_none_bound(table.drop_last());
    }
}

proof fn lemma_count_none_update(table: Seq<Option<u64>>, stop: int, duration: u64)
    requires
        0 <= stop < table.len(),
        table[stop].is_none(),
    ensures
        count_none(table.update(stop, Some(duration))) + 1 == count_none(table),
    decreases table.len(),
{
    let after = table.update(stop, Some(duration));
    if stop == table.len() - 1 {
        assert(after.drop_last() =~= table.drop_last());
    } else {
        lemma_count_none_update(table.drop_last(), stop, duration);
        assert(after.drop_last() =~= table.drop_last().update(stop, Some(duration)));
    }
}

proof fn lemma_count_none_fresh(table: Seq<Option<u64>>)
    requires
        forall|i: int| 0 <= i < table.len() ==> table[i].is_none(),
    ensures
        count_none(table) == table.len(),
    decreases table.len(),
{
    if table.len() > 0 {
        lemma_count_none_fresh(table.drop_last());
    }
}

/// Whether the queue holds an entry for `stop` with a duration of at most `limit`.
spec fn queued(queue: Seq<(u64, usize)>, stop: int, limit: int) -> bool {
    exists|entry: (u64, usize)|
        #[trigger] queue.contains(entry) && entry.1 == stop && entry.0 <= limit
}

/// Whether the arrival stop of an edge that leaves the settled stop `stop` is
/// settled, queued, or waiting to be queued, with a duration of at most that of the
/// edge's next departure.
spec fn covered(
    graph: GraphView,
    start: int,
    settled: Seq<Option<u64>>,
    queue: Seq<(u64, usize)>,
    pending: Seq<Option<u64>>,
    stop: int,
    edge: int,
) -> bool {
    let to = graph.edges[edge].connected_stop as int;
    let limit = graph.edges[edge].next_departure(start + settled[stop].unwrap()) - start;
    ||| settled[to].is_some() && settled[to].unwrap() <= limit
    ||| queued(queue, to, limit)
    ||| pending[to].is_some() && pending[to].unwrap() <= limit
}

/// What holds of the settled stops, the queue, and the stops that wait to be queued
/// throughout the search. While the edges of the stop `relaxing` are being taken,
/// those from position `upto` on are still to come.
spec fn search_inv(
    graph: GraphView,
    origin: int,
    start: int,
    settled: Seq<Option<u64>>,
    queue: Seq<(u64, usize)>,
    pending: Seq<Option<u64>>,
    relaxing: int,
    upto: int,
) -> bool {
    &&& settled.len() == graph.stops.len()
    &&& pending.len() == graph.stops.len()
    &&& 0 <= origin < graph.stops.len()
    &&& forall|entry: (u64, usize)| #[trigger]
        queue.contains(entry) ==> entry.1 < graph.stops.len() && graph.reaches(
            origin,
            start,
            entry.1 as int,
            start + entry.0,
        )
    &&& forall|stop: int|
        0 <= stop < graph.stops.len() && (#[trigger] settled[stop]).is_some() ==> graph.reaches(
            origin,
            start,
            stop,
            start + settled[stop].unwrap(),
        )
    &&& forall|stop: int|
        0 <= stop < graph.stops.len() && (#[trigger] pending[stop]).is_some() ==> graph.reaches(
            origin,
            start,
            stop,
            start + pending[stop].unwrap(),
        )
    &&& forall|stop: int, entry: (u64, usize)|
        0 <= stop < graph.stops.len() && (#[trigger] settled[stop]).is_some()
            && #[trigger] queue.contains(entry) ==> settled[stop].unwrap() <= entry.0
    &&& forall|stop: int, other: int|
        0 <= stop < graph.stops.len() && (#[trigger] settled[stop]).is_some() && 0 <= other
            < graph.stops.len() && (#[trigger] pending[other]).is_some()
            ==> settled[stop].unwrap() <= pending[other].unwrap()
    &&& forall|stop: int, k: int|
        #![trigger settled[stop], graph.stops[stop].edges[k]]
        0 <= stop < graph.stops.len() && settled[stop].is_some() && 0 <= k
            < graph.stops[stop].edges.len() && (stop != relaxing || k < upto) ==> covered(
            graph,
            start,
            settled,
            queue,
            pending,
            stop,
            graph.stops[stop].edges[k] as int,
        )
    &&& (settled[origin] == Some(0u64) || queued(queue, origin, 0))
}

/// Whether no stop waits to be queued.
spec fn none_pending(pending: Seq<Option<u64>>) -> bool {
    forall|stop: int| 0 <= stop < pending.len() ==> (#[trigger] pending[stop]).is_none()
}

proof fn lemma_queued_after_pop(
    before: Seq<(u64, usize)>,
    after: Seq<(u64, usize)>,
    entry: (u64, usize),
    stop: int,
    limit: int,
)
    requires
        popped(before, after, entry),
        queued(before, stop, limit),
    ensures
        queued(after, stop, limit) || (entry.1 == stop && entry.0 <= limit),
{
    let found = choose|found: (u64, usize)| #[trigger]
        before.contains(found) && found.1 == stop && found.0 <= limit;
    if found != entry {
        assert(after.contains(found));
    }
}

/// Dropping an entry whose stop is settled already keeps what holds of the search.
proof fn lemma_discard(
    graph: GraphView,
    origin: int,
    start: int,
    settled: Seq<Option<u64>>,
    before: Seq<(u64, usize)>,
    after: Seq<(u64, usize)>,
    pending: Seq<Option<u64>>,
    entry: (u64, usize),
)
    requires
        graph.wf(),
        search_inv(graph, origin, start, settled, before, pending, -1, 0),
        none_pending(pending),
        popped(before, after, entry),
        settled[entry.1 as int].is_some(),
    ensures
        search_inv(graph, origin, start, settled, after, pending, -1, 0),
{
    assert(before.contains(entry));
    assert(entry.1 < graph.stops.len());
    assert(settled[entry.1 as int].unwrap() <= entry.0);
    assert forall|stop: int, k: int|
        #![trigger settled[stop], graph.stops[stop].edges[k]]
        0 <= stop < graph.stops.len() && settled[stop].is_some() && 0 <= k
            < graph.stops[stop].edges.len() implies covered(
        graph,
        start,
        settled,
        after,
        pending,
        stop,
        graph.stops[stop].edges[k] as int,
    ) by {
        let edge = graph.stops[stop].edges[k] as int;
        let to = graph.edges[edge].connected_stop as int;
        let limit = graph.edges[edge].next_departure(start + settled[stop].unwrap()) - start;
        assert(covered(graph, start, settled, before, pending, stop, edge));
        assert(graph.edges[edge].wf());
        assert(pending[to].is_none());
        if !(settled[to].is_some() && settled[to].unwrap() <= limit) {
            lemma_queued_after_pop(before, after, entry, to, limit);
        }
    }
    assert forall|other: (u64, usize)| #[trigger] after.contains(other) implies other.1
        < graph.stops.len() && graph.reaches(origin, start, other.1 as int, start + other.0) by {
        assert(before.contains(other));
    }
    assert forall|stop: int, other: (u64, usize)|
        0 <= stop < graph.stops.len() && (#[trigger] settled[stop]).is_some()
            && #[trigger] after.contains(other) implies settled[stop].unwrap() <= other.0 by {
        assert(before.contains(other));
    }
    if settled[origin] != Some(0u64) {
        lemma_queued_after_pop(before, after, entry, origin, 0);
    }
}

/// Settling the stop of the entry that came first keeps what holds of the search,
/// with all the edges of that stop still to be taken.
proof fn lemma_settle(
    graph: GraphView,
    origin: int,
    start: int,
    settled: Seq<Option<u64>>,
    before: Seq<(u64, usize)>,
    after: Seq<(u64, usize)>,
    pending: Seq<Option<u64>>,
    entry: (u64, usize),
)
    requires
        graph.wf(),
        search_inv(graph, origin, start, settled, before, pending, -1, 0),
        none_pending(pending),
        popped(before, after, entry),
        settled[entry.1 as int].is_none(),
    ensures
        search_inv(
            graph,
            origin,
            start,
            settled.update(entry.1 as int, Some(entry.0)),
            after,
            pending,
            entry.1 as int,
            0,
        ),
        forall|stop: int|
            0 <= stop < graph.stops.len() && (#[trigger] settled.update(
                entry.1 as int,
                Some(entry.0),
            )[stop]).is_some() ==> settled.update(entry.1 as int, Some(entry.0))[stop].unwrap()
                <= entry.0,
{
    assert(before.contains(entry));
    assert(entry.1 < graph.stops.len());
    let v = entry.1 as int;
    let next = settled.update(v, Some(entry.0));
    assert forall|stop: int|
        0 <= stop < graph.stops.len() && (#[trigger] next[stop]).is_some() implies next[stop].unwrap()
        <= entry.0 by {
        if stop != v {
            assert(settled[stop].is_some());
        }
    }
    assert forall|stop: int, k: int|
        #![trigger next[stop], graph.stops[stop].edges[k]]
        0 <= stop < graph.stops.len() && next[stop].is_some() && 0 <= k
            < graph.stops[stop].edges.len() && (stop != v || k < 0) implies covered(
        graph,
        start,
        next,
        after,
        pending,
        stop,
        graph.stops[stop].edges[k] as int,
    ) by {
        let edge = graph.stops[stop].edges[k] as int;
        let to = graph.edges[edge].connected_stop as int;
        assert(settled[stop].is_some());
        let limit = graph.edges[edge].next_departure(start + settled[stop].unwrap()) - start;
        assert(covered(graph, start, settled, before, pending, stop, edge));
        assert(graph.edges[edge].wf());
        assert(pending[to].is_none());
        if !(settled[to].is_some() && settled[to].unwrap() <= limit) {
            lemma_queued_after_pop(before, after, entry, to, limit);
        }
    }
    assert forall|other: (u64, usize)| #[trigger] after.contains(other) implies other.1
        < graph.stops.len() && graph.reaches(origin, start, other.1 as int, start + other.0) by {
        assert(before.contains(other));
    }
    assert forall|stop: int, other: (u64, usize)|
        0 <= stop < graph.stops.len() && (#[trigger] next[stop]).is_some()
            && #[trigger] after.contains(other) implies next[stop].unwrap() <= other.0 by {
        assert(before.contains(other));
        if stop != v {
            assert(settled[stop].is_some());
        }
    }
    assert forall|stop: int|
        0 <= stop < graph.stops.len() && (#[trigger] next[stop]).is_some() implies graph.reaches(
        origin,
        start,
        stop,
        start + next[stop].unwrap(),
    ) by {
        if stop != v {
            assert(settled[stop].is_some());
        }
    }
    if next[origin] != Some(0u64) {
        if settled[origin] != Some(0u64) {
            lemma_queued_after_pop(before, after, entry, origin, 0);
        }
    }
}

/// Taking one more edge of the stop that is being settled keeps what holds of the
/// search: its arrival stop is settled already, or waits to be queued with a duration
/// of at most that of the edge's next departure.
proof fn lemma_relax(
    graph: GraphView,
    origin: int,
    start: int,
    settled: Seq<Option<u64>>,
    queue: Seq<(u64, usize)>,
    before: Seq<Option<u64>>,
    after: Seq<Option<u64>>,
    stop: int,
    k: int,
)
    requires
        graph.wf(),
        search_inv(graph, origin, start, settled, queue, before, stop, k),
        0 <= stop < graph.stops.len(),
        settled[stop].is_some(),
        0 <= k < graph.stops[stop].edges.len(),
        forall|other: int|
            0 <= other < graph.stops.len() && (#[trigger] settled[other]).is_some()
                ==> settled[other].unwrap() <= settled[stop].unwrap(),
        ({
            let edge = graph.stops[stop].edges[k] as int;
            let to = graph.edges[edge].connected_stop as int;
            let duration = graph.edges[edge].next_departure(start + settled[stop].unwrap())
                - start;
            if settled[to].is_some() {
                after == before
            } else if before[to].is_some() && before[to].unwrap() <= duration {
                after == before
            } else {
                0 <= duration <= u64::MAX && after == before.update(to, Some(duration as u64))
            }
        }),
    ensures
        search_inv(graph, origin, start, settled, queue, after, stop, k + 1),
{
    let edge = graph.stops[stop].edges[k] as int;
    assert(graph.leaves_from(stop, edge));
    assert(graph.edges[edge].wf());
    let to = graph.edges[edge].connected_stop as int;
    let now = start + settled[stop].unwrap();
    let duration = graph.edges[edge].next_departure(now) - start;
    lemma_next_departure(graph.edges[edge], now);
    lemma_reaches_next(graph, origin, start, stop, now, edge);
    assert forall|s: int, j: int|
        #![trigger settled[s], graph.stops[s].edges[j]]
        0 <= s < graph.stops.len() && settled[s].is_some() && 0 <= j < graph.stops[s].edges.len()
            && (s != stop || j < k + 1) implies covered(
        graph,
        start,
        settled,
        queue,
        after,
        s,
        graph.stops[s].edges[j] as int,
    ) by {
        if s == stop && j == k {
            if settled[to].is_some() {
                assert(settled[to].unwrap() <= settled[stop].unwrap());
            }
        } else {
            let other = graph.stops[s].edges[j] as int;
            assert(covered(graph, start, settled, queue, before, s, other));
            assert(graph.edges[other].wf());
        }
    }
    assert forall|s: int|
        0 <= s < graph.stops.len() && (#[trigger] after[s]).is_some() implies graph.reaches(
        origin,
        start,
        s,
        start + after[s].unwrap(),
    ) by {
        if s != to || after == before {
            assert(before[s].is_some());
        }
    }
    assert forall|s: int, other: int|
        0 <= s < graph.stops.len() && (#[trigger] settled[s]).is_some() && 0 <= other
            < graph.stops.len() && (#[trigger] after[other]).is_some() implies settled[s].unwrap()
        <= after[other].unwrap() by {
        if other != to || after == before {
            assert(before[other].is_some());
        }
    }
}

/// Queueing a stop that waits to be queued keeps what holds of the search.
proof fn lemma_flush(
    graph: GraphView,
    origin: int,
    start: int,
    settled: Seq<Option<u64>>,
    queue_before: Seq<(u64, usize)>,
    queue_after: Seq<(u64, usize)>,
    pending_before: Seq<Option<u64>>,
    pending_after: Seq<Option<u64>>,
    relaxing: int,
    upto: int,
    stop: usize,
)
    requires
        graph.wf(),
        search_inv(graph, origin, start, settled, queue_before, pending_before, relaxing, upto),
        0 <= stop < graph.stops.len(),
        pending_before[stop as int].is_some(),
        pushed(queue_before, queue_after, (pending_before[stop as int].unwrap(), stop)),
        pending_after == pending_before.update(stop as int, None),
    ensures
        search_inv(graph, origin, start, settled, queue_after, pending_after, relaxing, upto),
{
    let entry = (pending_before[stop as int].unwrap(), stop);
    assert(queue_after.contains(entry));
    assert forall|other: int, limit: int| queued(queue_before, other, limit) implies queued(
        queue_after,
        other,
        limit,
    ) by {
        let found = choose|found: (u64, usize)| #[trigger]
            queue_before.contains(found) && found.1 == other && found.0 <= limit;
        assert(queue_after.contains(found));
    }
    assert forall|s: int, j: int|
        #![trigger settled[s], graph.stops[s].edges[j]]
        0 <= s < graph.stops.len() && settled[s].is_some() && 0 <= j < graph.stops[s].edges.len()
            && (s != relaxing || j < upto) implies covered(
        graph,
        start,
        settled,
        queue_after,
        pending_after,
        s,
        graph.stops[s].edges[j] as int,
    ) by {
        let edge = graph.stops[s].edges[j] as int;
        let to = graph.edges[edge].connected_stop as int;
        let limit = graph.edges[edge].next_departure(start + settled[s].unwrap()) - start;
        assert(covered(graph, start, settled, queue_before, pending_before, s, edge));
        if to == stop && pending_before[to].is_some() && pending_before[to].unwrap() <= limit {
            assert(queued(queue_after, to, limit));
        }
    }
    assert forall|other: (u64, usize)| #[trigger] queue_after.contains(other) implies other.1
        < graph.stops.len() && graph.reaches(origin, start, other.1 as int, start + other.0) by {
        if other != entry {
            assert(queue_before.contains(other));
        }
    }
    assert forall|s: int, other: (u64, usize)|
        0 <= s < graph.stops.len() && (#[trigger] settled[s]).is_some()
            && #[trigger] queue_after.contains(other) implies settled[s].unwrap() <= other.0 by {
        if other != entry {
            assert(queue_before.contains(other));
        }
    }
    assert forall|s: int|
        0 <= s < graph.stops.len() && (#[trigger] pending_after[s]).is_some() implies graph.reaches(
        origin,
        start,
        s,
        start + pending_after[s].unwrap(),
    ) by {
        assert(pending_before[s].is_some());
    }
    assert forall|s: int, other: int|
        0 <= s < graph.stops.len() && (#[trigger] settled[s]).is_some() && 0 <= other
            < graph.stops.len() && (#[trigger] pending_after[other]).is_some()
            implies settled[s].unwrap() <= pending_after[other].unwrap() by {
        assert(pending_before[other].is_some());
    }
    if settled[origin] != Some(0u64) {
        assert(queued(queue_before, origin, 0));
    }
}

impl GtfsGraph {
    /// The table, by stop position, of the seconds from `start_time` to the earliest
    /// arrival at each stop for a traveller who stands at the stop `origin` at
    /// `start_time`.
    pub fn search(&self, origin: usize, start_time: i64) -> (table: Vec<Option<u64>>)
        requires
            self.wf(),
            origin < self@.stops.len(),
            self@.stops.len() <= MAX_STOPS,
            -MAX_START <= start_time <= MAX_START,
        ensures
            self@.is_reachability(origin as int, start_time as int, table@),
            table@[origin as int] == Some(0u64),
    {
        let n: usize = self.stops.len();
        let ghost graph = self@;
        let ghost start = start_time as int;
        let mut settled: Vec<Option<u64>> = Vec::new();
        let mut pending: Vec<Option<u64>> = Vec::new();
        while settled.len() < n
            invariant
                n == self.stops@.len(),
                settled@.len() <= n,
                pending@.len() == settled@.len(),
                forall|i: int| 0 <= i < settled@.len() ==> settled@[i].is_none(),
                forall|i: int| 0 <= i < pending@.len() ==> pending@[i].is_none(),
            decreases n - settled@.len(),
        {
            settled.push(None);
            pending.push(None);
        }
        let mut touched: Vec<usize> = Vec::new();
        let mut queue = MinQueue::new();
        queue.push((0, origin));
        proof {
            lemma_count_none_fresh(settled@);
            assert(graph.is_journey(origin as int, start, Seq::empty()));
            assert(graph.reaches(origin as int, start, origin as int, start));
            assert(queue@.contains((0u64, origin)));
            assert(queued(queue@, origin as int, 0));
        }
        while queue.len() > 0
            invariant
                self.wf(),
                queue.wf(),
                graph == self@,
                start == start_time as int,
                n == graph.stops.len(),
                n <= MAX_STOPS,
                -MAX_START <= start_time <= MAX_START,
                touched@.len() == 0,
                none_pending(pending@),
                search_inv(graph, origin as int, start, settled@, queue@, pending@, -1, 0),
                forall|entry: (u64, usize)| #[trigger]
                    queue@.contains(entry) ==> entry.0 <= (n - count_none(settled@)) * 777_600,
                forall|stop: int|
                    0 <= stop < n && (#[trigger] settled@[stop]).is_some()
                        ==> settled@[stop].unwrap() <= (n - count_none(settled@)) * 777_600,
            decreases count_none(settled@), queue@.len(),
        {
            let ghost queue_before = queue@;
            let entry = queue.pop();
            let duration: u64 = entry.0;
            let stop: usize = entry.1;
            proof {
                lemma_count_none_bound(settled@);
                assert(queue_before.contains(entry));
                assert forall|other: (u64, usize)| #[trigger] queue@.contains(other) implies other.0
                    <= (n - count_none(settled@)) * 777_600 by {
                    assert(queue_before.contains(other));
                }
            }
            if settled[stop].is_some() {
                proof {
                    lemma_discard(
                        graph,
                        origin as int,
                        start,
                        settled@,
                        queue_before,
                        queue@,
                        pending@,
                        entry,
                    );
                }
            } else {
                proof {
                    lemma_settle(
                        graph,
                        origin as int,
                        start,
                        settled@,
                        queue_before,
                        queue@,
                        pending@,
                        entry,
                    );
                    lemma_count_none_update(settled@, stop as int, duration);
                }
                settled[stop] = Some(duration);
                let now: i64 = start_time + duration as i64;
                let degree: usize = self.stops[stop].edges.len();
                let mut k: usize = 0;
                while k < degree
                    invariant
                        self.wf(),
                        queue.wf(),
                        graph == self@,
                        start == start_time as int,
                        n == graph.stops.len(),
                        n <= MAX_STOPS,
                        -MAX_START <= start_time <= MAX_START,
                        stop < n,
                        degree == graph.stops[stop as int].edges.len(),
                        0 <= k <= degree,
                        settled@[stop as int] == Some(duration),
                        now == start + duration,
                        count_none(settled@) < n,
                        duration <= (n - count_none(settled@) - 1) * 777_600,
                        search_inv(
                            graph,
                            origin as int,
                            start,
                            settled@,
                            queue@,
                            pending@,
                            stop as int,
                            k as int,
                        ),
                        forall|other: int|
                            0 <= other < n && (#[trigger] settled@[other]).is_some()
                                ==> settled@[other].unwrap() <= duration,
                        forall|other: (u64, usize)| #[trigger]
                            queue@.contains(other) ==> other.0 <= (n - count_none(settled@))
                                * 777_600,
                        forall|other: int|
                            0 <= other < n && (#[trigger] pending@[other]).is_some()
                                ==> pending@[other].unwrap() <= (n - count_none(settled@))
                                * 777_600,
                        forall|other: int|
                            0 <= other < n ==> ((#[trigger] pending@[other]).is_some()
                                <==> touched@.contains(other as usize)),
                        forall|a: int, b: int|
                            0 <= a < b < touched@.len() ==> touched@[a] != touched@[b],
                        forall|a: int| 0 <= a < touched@.len() ==> (#[trigger] touched@[a]) < n,
                    decreases degree - k,
                {
                    let position: usize = self.stops[stop].edges[k];
                    assert(position == graph.stops[stop as int].edges[k as int]);
                    assert(position < graph.edges.len());
                    let edge = self.edges[position];
                    assert(edge@ == graph.edges[position as int]);
                    assert(edge@.wf());
                    let to: usize = edge.connected_stop;
                    let ghost pending_before = pending@;
                    let ghost touched_before = touched@;
                    if settled[to].is_none() {
                        let departure: i64 = edge.next_departure(now);
                        let reached: u64 = (departure - start_time) as u64;
                        match pending[to] {
                            Some(waiting) => {
                                if reached < waiting {
                                    pending[to] = Some(reached);
                                }
                                proof {
                                    assert(touched@.contains(to));
                                }
                            },
                            None => {
                                pending[to] = Some(reached);
                                touched.push(to);
                                proof {
                                    assert(!touched_before.contains(to));
                                    assert(touched@[touched_before.len() as int] == to);
                                    assert forall|other: int| 0 <= other < n implies ((
                                    #[trigger] pending@[other]).is_some() <==> touched@.contains(
                                        other as usize,
                                    )) by {
                                        if other == to {
                                        } else if pending_before[other].is_some() {
                                            assert(touched_before.contains(other as usize));
                                            let a = choose|a: int|
                                                0 <= a < touched_before.len() && touched_before[a]
                                                    == other as usize;
                                            assert(touched@[a] == other as usize);
                                        } else if touched@.contains(other as usize) {
                                            let a = choose|a: int|
                                                0 <= a < touched@.len() && touched@[a]
                                                    == other as usize;
                                            assert(touched_before[a] == other as usize);
                                        }
                                    }
                                    assert forall|a: int, b: int|
                                        0 <= a < b < touched@.len() implies touched@[a]
                                        != touched@[b] by {
                                        if b == touched_before.len() {
                                            assert(touched_before[a] == touched@[a]);
                                            assert(touched_before.contains(touched@[a]));
                                        } else {
                                            assert(touched_before[a] != touched_before[b]);
                                        }
                                    }
                                }
                            },
                        }
                    }
                    proof {
                        lemma_relax(
                            graph,
                            origin as int,
                            start,
                            settled@,
                            queue@,
                            pending_before,
                            pending@,
                            stop as int,
                            k as int,
                        );
                    }
                    k = k + 1;
                }
                let waiting: usize = touched.len();
                let mut j: usize = 0;
                while j < waiting
                    invariant
                        self.wf(),
                        queue.wf(),
                        graph == self@,
                        n == graph.stops.len(),
                        stop < n,
                        degree == graph.stops[stop as int].edges.len(),
                        waiting == touched@.len(),
                        0 <= j <= waiting,
                        search_inv(
                            graph,
                            origin as int,
                            start,
                            settled@,
                            queue@,
                            pending@,
                            stop as int,
                            degree as int,
                        ),
                        forall|other: (u64, usize)| #[trigger]
                            queue@.contains(other) ==> other.0 <= (n - count_none(settled@))
                                * 777_600,
                        forall|other: int|
                            0 <= other < n && (#[trigger] pending@[other]).is_some()
                                ==> pending@[other].unwrap() <= (n - count_none(settled@))
                                * 777_600,
                        forall|other: int|
                            0 <= other < n ==> ((#[trigger] pending@[other]).is_some() <==> exists|
                                a: int,
                            |
                                j <= a < touched@.len() && #[trigger] touched@[a] == other),
                        forall|a: int, b: int|
                            0 <= a < b < touched@.len() ==> touched@[a] != touched@[b],
                        forall|a: int| 0 <= a < touched@.len() ==> (#[trigger] touched@[a]) < n,
                    decreases waiting - j,
                {
                    let to: usize = touched[j];
                    let ghost queue_mid = queue@;
                    let ghost pending_mid = pending@;
                    assert(pending@[to as int].is_some());
                    let reached: u64 = match pending[to] {
                        Some(reached) => reached,
                        None => 0,
                    };
                    queue.push((reached, to));
                    pending[to] = None;
                    proof {
                        lemma_flush(
                            graph,
                            origin as int,
                            start,
                            settled@,
                            queue_mid,
                            queue@,
                            pending_mid,
                            pending@,
                            stop as int,
                            degree as int,
                            to,
                        );
                        assert forall|other: (u64, usize)| #[trigger] queue@.contains(other) implies other.0
                            <= (n - count_none(settled@)) * 777_600 by {
                            if other != (reached, to) {
                                assert(queue_mid.contains(other));
                            }
                        }
                        assert forall|other: int| 0 <= other < n implies ((
                        #[trigger] pending@[other]).is_some() <==> exists|a: int|
                            j + 1 <= a < touched@.len() && #[trigger] touched@[a] == other) by {
                            if other == to {
                                if exists|a: int|
                                    j + 1 <= a < touched@.len() && #[trigger] touched@[a] == other {
                                    let a = choose|a: int|
                                        j + 1 <= a < touched@.len() && #[trigger] touched@[a]
                                            == other;
                                    assert(touched@[j as int] != touched@[a]);
                                }
                            } else if pending_mid[other].is_some() {
                                let a = choose|a: int|
                                    j <= a < touched@.len() && #[trigger] touched@[a] == other;
                                assert(a != j);
                            }
                        }
                    }
                    j = j + 1;
                }
                touched.clear();
                proof {
                    assert forall|other: int| 0 <= other < pending@.len() implies (
                    #[trigger] pending@[other]).is_none() by {
                        if pending@[other].is_some() {
                            let a = choose|a: int|
                                j <= a < waiting && #[trigger] touched@[a] == other;
                        }
                    }
                }
            }
        }
        proof {
            assert(queue@.len() == 0);
            assert forall|stop: int, limit: int| !queued(queue@, stop, limit) by {
                if queued(queue@, stop, limit) {
                    let found = choose|found: (u64, usize)| #[trigger]
                        queue@.contains(found) && found.1 == stop && found.0 <= limit;
                    let at = choose|at: int| 0 <= at < queue@.len() && queue@[at] == found;
                }
            }
            assert forall|stop: int, k: int|
                #![trigger settled@[stop], graph.stops[stop].edges[k]]
                0 <= stop < graph.stops.len() && settled@[stop].is_some() && 0 <= k
                    < graph.stops[stop].edges.len() implies graph.edge_covered(
                start,
                settled@,
                stop,
                graph.stops[stop].edges[k] as int,
            ) by {
                let edge = graph.stops[stop].edges[k] as int;
                assert(covered(graph, start, settled@, queue@, pending@, stop, edge));
                assert(graph.edges[edge].wf());
                let to = graph.edges[edge].connected_stop as int;
                assert(pending@[to].is_none());
            }
            lemma_closed_is_reachability(graph, origin as int, start, settled@);
        }
        settled
    }

    /// The table of a search, keyed by stop id.
    fn table_by_id(&self, table: &Vec<Option<u64>>) -> (map: TimeLookupTable)
        requires
            self.wf(),
            table@.len() == self@.stops.len(),
        ensures
            forall|position: int|
                0 <= position < table@.len() ==> match #[trigger] table@[position] {
                    Some(duration) => map@.contains_key(self@.stops[position].id)
                        && map@[self@.stops[position].id] == duration,
                    None => !map@.contains_key(self@.stops[position].id),
                },
            forall|id: Seq<char>| #[trigger] map@.contains_key(id) ==> self@.has_stop(id),
    {
        let mut map: TimeLookupTable = StringHashMap::new();
        let n: usize = table.len();
        let mut i: usize = 0;
        while i < n
            invariant
                self.wf(),
                n == table@.len(),
                n == self@.stops.len(),
                0 <= i <= n,
                forall|position: int|
                    0 <= position < i ==> match #[trigger] table@[position] {
                        Some(duration) => map@.contains_key(self@.stops[position].id)
                            && map@[self@.stops[position].id] == duration,
                        None => !map@.contains_key(self@.stops[position].id),
                    },
                forall|id: Seq<char>| #[trigger]
                    map@.contains_key(id) ==> self@.has_stop(id) && self@.index_of(id) < i,
            decreases n - i,
        {
            proof {
                lemma_index_of(self@, i as int);
                assert forall|position: int| 0 <= position < i implies self@.stops[position].id
                    != self@.stops[i as int].id by {
                    lemma_index_of(self@, position);
                }
            }
            match table[i] {
                Some(duration) => {
                    let id = self.stops[i].id.clone();
                    map.insert(id, duration);
                },
                None => {},
            }
            i = i + 1;
        }
        map
    }

    /// The seconds from `start_time` to the earliest arrival at every stop that a
    /// traveller can reach who stands at the stop `start_id` at `start_time`, keyed
    /// by stop id.
    pub fn dijkstras(&self, start_id: &str, start_time: i64) -> (r: Result<
        TimeLookupTable,
        Error,
    >)
        requires
            self.wf(),
            self@.stops.len() <= MAX_STOPS,
            -MAX_START <= start_time <= MAX_START,
        ensures
            match r {
                Ok(table) => self@.is_reachability_table(start_id@, start_time as int, table@)
                    && table@.contains_key(start_id@) && table@[start_id@] == 0,
                Err(Error::MissingStop(id)) => !self@.has_stop(start_id@) && id@ == start_id@,
                Err(_) => false,
            },
    {
        proof {
            self.lemma_index(start_id@);
        }
        let origin: usize = match self.index.get(start_id) {
            Some(position) => *position,
            None => {
                return Err(Error::MissingStop(start_id.to_owned()));
            },
        };
        let table = self.search(origin, start_time);
        let map = self.table_by_id(&table);
        proof {
            let graph = self@;
            let start = start_time as int;
            assert forall|id: Seq<char>| #[trigger] map@.contains_key(id) implies graph.has_stop(
                id,
            ) && graph.is_earliest(origin as int, start, graph.index_of(id), start + map@[id]) by {
                let position = graph.index_of(id);
                assert(table@[position].is_some());
            }
            assert forall|id: Seq<char>|
                graph.has_stop(id) && !#[trigger] map@.contains_key(id) implies graph.unreachable(
                origin as int,
                start,
                graph.index_of(id),
            ) by {
                let position = graph.index_of(id);
                assert(table@[position].is_none());
            }
            assert(table@[origin as int] == Some(0u64));
        }
        Ok(map)
    }
}

} // verus!
