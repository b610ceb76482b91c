//! The one-slot cache of the reachability table that was computed last.

use crate::gtfs_types::{Day, DayTime, StopTrip};
use vstd::hash_map::StringHashMap;
use vstd::prelude::*;
use vstd::std_specs::convert::FromSpecImpl;

verus! {

/// A reachability table: the seconds to reach a stop, by stop id.
pub type TimeLookupTable = StringHashMap<u64>;

/// A stop together with a time in seconds: the time of day at which it is left, or
/// the time that it takes to reach it.
#[derive(Hash, Debug)]
pub struct StopNode {
    pub stop_id: String,
    pub time_to: u32,
}

impl Clone for StopNode {
    fn clone(&self) -> (node: StopNode)
        ensures
            node.stop_id@ == self.stop_id@,
            node.time_to == self.time_to,
    {
        StopNode { stop_id: self.stop_id.clone(), time_to: self.time_to }
    }
}

impl Default for StopNode {
    fn default() -> (node: StopNode)
        ensures
            node.stop_id@ == Seq::<char>::empty(),
            node.time_to == 0,
    {
        StopNode { stop_id: String::new(), time_to: 0 }
    }
}

impl From<StopTrip> for StopNode {
    /// The stop of a call, with the time at which the trip leaves it.
    fn from(value: StopTrip) -> (node: StopNode) {
        StopNode { stop_id: value.stop_id, time_to: value.departure_time }
    }
}

impl FromSpecImpl<StopTrip> for StopNode {
    open spec fn obeys_from_spec() -> bool {
        true
    }

    open spec fn from_spec(value: StopTrip) -> StopNode {
        StopNode { stop_id: value.stop_id, time_to: value.departure_time }
    }
}

/// The reachability table that was computed last, with the day and hour and the
/// origin that it was computed for.
pub struct StopMapCache {
    lookup_table: TimeLookupTable,
    daytime: DayTime,
    start_node: StopNode,
}

impl StopMapCache {
    /// The table that the cache holds.
    pub closed spec fn table(&self) -> Map<Seq<char>, u64> {
        self.lookup_table@
    }

    /// The day and hour that the table was computed for.
    pub closed spec fn daytime(&self) -> DayTime {
        self.daytime
    }

    /// The id of the origin that the table was computed for.
    pub closed spec fn origin(&self) -> Seq<char> {
        self.start_node.stop_id@
    }

    /// The time of the origin that the table was computed for.
    pub closed spec fn origin_time(&self) -> u32 {
        self.start_node.time_to
    }

    /// Whether the table was computed for the given day and hour and origin.
    pub open spec fn current_for(&self, daytime: DayTime, start_node: StopNode) -> bool {
        &&& self.daytime() == daytime
        &&& self.origin() == start_node.stop_id@
        &&& self.origin_time() == start_node.time_to
    }

    /// A cache with an empty table, for Monday at midnight and an origin without id.
    pub fn new() -> (cache: StopMapCache)
        ensures
            cache.table() == Map::<Seq<char>, u64>::empty(),
            cache.daytime().day == Day::Monday,
            cache.daytime().time@ == 0,
            cache.origin() == Seq::<char>::empty(),
            cache.origin_time() == 0,
    {
        StopMapCache {
            lookup_table: StringHashMap::new(),
            daytime: DayTime::default(),
            start_node: StopNode::default(),
        }
    }

    /// The table that the cache holds.
    pub fn get(&self) -> (table: &TimeLookupTable)
        ensures
            table@ == self.table(),
    {
        &self.lookup_table
    }

    /// Whether the table was computed for the given day and hour and origin.
    pub fn is_current(&self, daytime: DayTime, start_node: StopNode) -> (r: bool)
        ensures
            r == self.current_for(daytime, start_node),
    {
        self.daytime == daytime && self.start_node.stop_id == start_node.stop_id
            && self.start_node.time_to == start_node.time_to
    }

    /// The table, if it was computed for the given day and hour and origin.
    pub fn get_if_current(&self, daytime: DayTime, start_node: StopNode) -> (r: Option<
        &TimeLookupTable,
    >)
        ensures
            match r {
                Some(table) => self.current_for(daytime, start_node) && table@ == self.table(),
                None => !self.current_for(daytime, start_node),
            },
    {
        if self.is_current(daytime, start_node) {
            Some(self.get())
        } else {
            None
        }
    }

    /// Puts a newly computed table into the cache, with what it was computed for.
    pub fn update_lookup_table(
        &mut self,
        daytime: DayTime,
        start_node: StopNode,
        lookup_table: TimeLookupTable,
    )
        ensures
            final(self).table() == lookup_table@,
            final(self).current_for(daytime, start_node),
    {
        self.lookup_table = lookup_table;
        self.daytime = daytime;
        self.start_node = start_node;
    }
}

impl Default for StopMapCache {
    fn default() -> (cache: StopMapCache)
        ensures
            cache.table() == Map::<Seq<char>, u64>::empty(),
            cache.daytime().day == Day::Monday,
            cache.daytime().time@ == 0,
            cache.origin() == Seq::<char>::empty(),
            cache.origin_time() == 0,
    {
        StopMapCache::new()
    }
}

} // verus!
