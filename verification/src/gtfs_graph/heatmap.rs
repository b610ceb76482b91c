//! Heatmap tiles: for every pixel of a map tile, how long it takes to get there by
//! riding to a stop and walking the rest.
//!
//! The way from a stop to a pixel is given by the caller as a ground distance in
//! millimetres; everything else is computed here in whole seconds.

use crate::coords::{Coordinates, TileNumbers};
use crate::gtfs_graph::{GraphView, GtfsGraph};
use crate::raster::{gray_pixels, gray_width, HeatmapTile};
use crate::dijkstras::TimeLookupTable;
use vstd::prelude::*;

verus! {

/// The width and the height of a tile in pixels.
pub const TILE_RESOLUTION: u32 = 256;

/// The walking speed in millimetres per second.
pub const WALKING_SPEED: u64 = 1_400;

/// The longest walk that the brightness scale allows for, in seconds.
pub const MAX_WALKING_TIME: u64 = 2_700;

/// The seconds that it takes to get to a point by reaching a stop after `duration`
/// seconds and walking `distance` millimetres from there.
pub open spec fn total_time(duration: u64, distance: u64) -> int {
    duration + distance / 1_400
}

/// The least time to get to a point over the first `upto` stops, where the table
/// gives a duration for some of them and `distances` the way from each to the point.
pub open spec fn best_time(durations: Seq<Option<u64>>, distances: Seq<u64>, upto: int) -> Option<
    int,
>
    decreases upto,
{
    if upto <= 0 {
        None
    } else {
        let rest = best_time(durations, distances, upto - 1);
        match durations[upto - 1] {
            Some(duration) => {
                let total = total_time(duration, distances[upto - 1]);
                match rest {
                    Some(best) => Some(if total < best { total } else { best }),
                    None => Some(total),
                }
            },
            None => rest,
        }
    }
}

/// The greatest duration among the first `upto` entries of a table.
pub open spec fn latest(durations: Seq<Option<u64>>, upto: int) -> Option<int>
    decreases upto,
{
    if upto <= 0 {
        None
    } else {
        let rest = latest(durations, upto - 1);
        match durations[upto - 1] {
            Some(duration) => match rest {
                Some(most) => Some(if duration > most { duration as int } else { most }),
                None => Some(duration as int),
            },
            None => rest,
        }
    }
}

/// The brightness of a point that is reached after `best` seconds, on a scale that
/// is brightest at `max_time` seconds and beyond.
pub open spec fn brightness(best: int, max_time: int) -> int {
    if best * 255 / max_time > 255 {
        255
    } else {
        best * 255 / max_time
    }
}

/// The brightness of a pixel: that of the least time to get there, on a scale that
/// ends at the greatest duration of the table and the longest walk; zero where the
/// table is empty.
pub open spec fn pixel_value(durations: Seq<Option<u64>>, distances: Seq<u64>) -> int {
    match (
        best_time(durations, distances, durations.len() as int),
        latest(durations, durations.len() as int),
    ) {
        (Some(best), Some(most)) => brightness(best, most + 2_700),
        _ => 0,
    }
}

impl GraphView {
    /// The durations that a table by stop id gives for the stops of the graph, by
    /// stop position.
    pub open spec fn durations(self, table: Map<Seq<char>, u64>) -> Seq<Option<u64>> {
        Seq::new(
            self.stops.len(),
            |i: int|
                if table.contains_key(self.stops[i].id) {
                    Some(table[self.stops[i].id])
                } else {
                    None
                },
        )
    }

    /// Whether `value` is the brightness of the pixel at column `px` and row `py` of
    /// a tile for some distances that `distance` may give from the stops of the table
    /// to that pixel.
    pub open spec fn is_pixel<F: Fn(Coordinates, TileNumbers, u32, u32) -> u64>(
        self,
        table: Map<Seq<char>, u64>,
        distance: F,
        tile: TileNumbers,
        px: u32,
        py: u32,
        value: u8,
    ) -> bool {
        exists|distances: Seq<u64>|
            #![trigger pixel_value(self.durations(table), distances)]
            self.measured(table, distance, tile, px, py, distances) && value == pixel_value(
                self.durations(table),
                distances,
            )
    }

    /// Whether `pixels` are the bytes of the tile, row by row from the top: 256 rows
    /// of 256 pixels, each with its brightness.
    pub open spec fn is_tile_image<F: Fn(Coordinates, TileNumbers, u32, u32) -> u64>(
        self,
        table: Map<Seq<char>, u64>,
        distance: F,
        tile: TileNumbers,
        pixels: Seq<u8>,
    ) -> bool {
        &&& pixels.len() == 65_536
        &&& forall|px: u32, py: u32|
            px < 256 && py < 256 ==> self.is_pixel(
                table,
                distance,
                tile,
                px,
                py,
                #[trigger] pixels[py * 256 + px],
            )
    }

    /// Whether `distances` holds, for each stop of the table, a distance that
    /// `distance` may give from that stop to the pixel.
    pub open spec fn measured<F: Fn(Coordinates, TileNumbers, u32, u32) -> u64>(
        self,
        table: Map<Seq<char>, u64>,
        distance: F,
        tile: TileNumbers,
        px: u32,
        py: u32,
        distances: Seq<u64>,
    ) -> bool {
        &&& distances.len() == self.stops.len()
        &&& forall|i: int|
            0 <= i < self.stops.len() && table.contains_key(self.stops[i].id) ==> call_ensures(
                distance,
                (self.stops[i].coordinates, tile, px, py),
                #[trigger] distances[i],
            )
    }
}

proof fn lemma_best_time_bound(durations: Seq<Option<u64>>, distances: Seq<u64>, upto: int)
    requires
        0 <= upto <= durations.len(),
        distances.len() == durations.len(),
    ensures
        match best_time(durations, distances, upto) {
            Some(best) => 0 <= best <= 2 * u64::MAX && latest(durations, upto).is_some(),
            None => latest(durations, upto).is_none(),
        },
        match latest(durations, upto) {
            Some(most) => 0 <= most <= u64::MAX,
            None => true,
        },
    decreases upto,
{
    if upto > 0 {
        lemma_best_time_bound(durations, distances, upto - 1);
    }
}

/// The brightness of a reaching time on a scale that ends at `max_time` seconds.
pub fn scale_brightness(best: u128, max_time: u128) -> (value: u8)
    requires
        best <= 2 * u64::MAX,
        0 < max_time,
    ensures
        value == brightness(best as int, max_time as int),
{
    let scaled: u128 = best * 255 / max_time;
    if scaled > 255 {
        255
    } else {
        scaled as u8
    }
}

/// The brightness of the pixel at column `pixel_x` and row `pixel_y` of a tile, from
/// the durations to the stops at `coordinates` and the distance from each to the
/// pixel.
pub fn calculate_pixel_brightness<F: Fn(Coordinates, TileNumbers, u32, u32) -> u64>(
    pixel_x: u32,
    pixel_y: u32,
    tile: &TileNumbers,
    coordinates: &Vec<Coordinates>,
    durations: &Vec<Option<u64>>,
    distance: &F,
) -> (r: (u8, Ghost<Seq<u64>>))
    requires
        coordinates@.len() == durations@.len(),
        forall|i: int|
            0 <= i < coordinates@.len() ==> call_requires(
                *distance,
                (#[trigger] coordinates@[i], *tile, pixel_x, pixel_y),
            ),
    ensures
        r.1@.len() == durations@.len(),
        forall|i: int|
            0 <= i < durations@.len() && durations@[i].is_some() ==> call_ensures(
                *distance,
                (coordinates@[i], *tile, pixel_x, pixel_y),
                #[trigger] r.1@[i],
            ),
        r.0 == pixel_value(durations@, r.1@),
{
    let n: usize = durations.len();
    let ghost mut distances: Seq<u64> = Seq::empty();
    let mut best: Option<u128> = None;
    let mut most: Option<u64> = None;
    let mut i: usize = 0;
    while i < n
        invariant
            0 <= i <= n,
            n == durations@.len(),
            n == coordinates@.len(),
            distances.len() == i,
            forall|j: int|
                0 <= j < coordinates@.len() ==> call_requires(
                    *distance,
                    (#[trigger] coordinates@[j], *tile, pixel_x, pixel_y),
                ),
            forall|j: int|
                0 <= j < i && durations@[j].is_some() ==> call_ensures(
                    *distance,
                    (coordinates@[j], *tile, pixel_x, pixel_y),
                    #[trigger] distances[j],
                ),
            match best {
                Some(b) => best_time(durations@, distances, i as int) == Some(b as int) && b <= 2
                    * u64::MAX,
                None => best_time(durations@, distances, i as int).is_none(),
            },
            match most {
                Some(m) => latest(durations@, i as int) == Some(m as int),
                None => latest(durations@, i as int).is_none(),
            },
        decreases n - i,
    {
        let ghost before = distances;
        match durations[i] {
            Some(duration) => {
                let way: u64 = distance(coordinates[i], *tile, pixel_x, pixel_y);
                proof {
                    distances = distances.push(way);
                }
                let total: u128 = duration as u128 + (way / WALKING_SPEED) as u128;
                best =
                match best {
                    Some(b) => Some(if total < b { total } else { b }),
                    None => Some(total),
                };
                most =
                match most {
                    Some(m) => Some(if duration > m { duration } else { m }),
                    None => Some(duration),
                };
            },
            None => {
                proof {
                    distances = distances.push(0);
                }
            },
        }
        proof {
            lemma_best_time_prefix(durations@, before, distances, i as int);
        }
        i = i + 1;
    }
    let value: u8 = match (best, most) {
        (Some(b), Some(m)) => scale_brightness(b, m as u128 + MAX_WALKING_TIME as u128),
        _ => 0,
    };
    proof {
        lemma_best_time_bound(durations@, distances, n as int);
    }
    (value, Ghost(distances))
}

proof fn lemma_best_time_prefix(
    durations: Seq<Option<u64>>,
    before: Seq<u64>,
    after: Seq<u64>,
    upto: int,
)
    requires
        0 <= upto <= before.len(),
        before.len() <= after.len(),
        forall|j: int| 0 <= j < before.len() ==> before[j] == after[j],
    ensures
        best_time(durations, after, upto) == best_time(durations, before, upto),
    decreases upto,
{
    if upto > 0 {
        lemma_best_time_prefix(durations, before, after, upto - 1);
    }
}

impl GtfsGraph {
    /// The durations that a table by stop id gives for the stops of the graph, by
    /// stop position, and the coordinates of those stops.
    fn table_by_position(&self, stop_times: &TimeLookupTable) -> (r: (
        Vec<Option<u64>>,
        Vec<Coordinates>,
    ))
        ensures
            r.0@ == self@.durations(stop_times@),
            r.1@.len() == self@.stops.len(),
            forall|i: int|
                0 <= i < self@.stops.len() ==> #[trigger] r.1@[i] == self@.stops[i].coordinates,
    {
        let mut durations: Vec<Option<u64>> = Vec::new();
        let mut coordinates: Vec<Coordinates> = Vec::new();
        let n: usize = self.stops.len();
        let mut i: usize = 0;
        while i < n
            invariant
                0 <= i <= n,
                n == self@.stops.len(),
                durations@.len() == i,
                coordinates@.len() == i,
                forall|j: int|
                    0 <= j < i ==> #[trigger] durations@[j] == self@.durations(stop_times@)[j],
                forall|j: int|
                    0 <= j < i ==> #[trigger] coordinates@[j] == self@.stops[j].coordinates,
            decreases n - i,
        {
            let found: Option<u64> = match stop_times.get(self.stops[i].id.as_str()) {
                Some(duration) => Some(*duration),
                None => None,
            };
            durations.push(found);
            coordinates.push(self.stops[i].coordinates);
            i = i + 1;
        }
        proof {
            assert(durations@ =~= self@.durations(stop_times@));
        }
        (durations, coordinates)
    }

    /// Draws the tile at the given address: each pixel is the brighter the longer it
    /// takes to get there by riding to a stop of the table and walking the rest of
    /// the way, which `distance` gives in millimetres for a stop's coordinates, the
    /// tile, and the column and row of the pixel.
    pub fn generate_heatmap_tile<F: Fn(Coordinates, TileNumbers, u32, u32) -> u64>(
        &self,
        zoom: u32,
        tile_x: u32,
        tile_y: u32,
        stop_times: &TimeLookupTable,
        distance: F,
    ) -> (image: HeatmapTile)
        requires
            (TileNumbers { zoom, x: tile_x, y: tile_y }).valid(),
            forall|coordinates: Coordinates, px: u32, py: u32|
                px < 256 && py < 256 ==> #[trigger] call_requires(
                    distance,
                    (coordinates, TileNumbers { zoom, x: tile_x, y: tile_y }, px, py),
                ),
        ensures
            gray_width(image) == 256,
            self@.is_tile_image(
                stop_times@,
                distance,
                TileNumbers { zoom, x: tile_x, y: tile_y },
                gray_pixels(image),
            ),
    {
        let tile = TileNumbers { zoom, x: tile_x, y: tile_y };
        let (durations, coordinates) = self.table_by_position(stop_times);
        let mut image = HeatmapTile::blank(TILE_RESOLUTION, TILE_RESOLUTION);
        let mut py: u32 = 0;
        while py < TILE_RESOLUTION
            invariant
                0 <= py <= 256,
                tile == (TileNumbers { zoom, x: tile_x, y: tile_y }),
                durations@ == self@.durations(stop_times@),
                coordinates@.len() == self@.stops.len(),
                forall|i: int|
                    0 <= i < self@.stops.len() ==> #[trigger] coordinates@[i]
                        == self@.stops[i].coordinates,
                forall|c: Coordinates, x: u32, y: u32|
                    x < 256 && y < 256 ==> #[trigger] call_requires(distance, (c, tile, x, y)),
                gray_width(image) == 256,
                gray_pixels(image).len() == 65_536,
                forall|x: u32, y: u32|
                    x < 256 && y < py ==> self@.is_pixel(
                        stop_times@,
                        distance,
                        tile,
                        x,
                        y,
                        #[trigger] gray_pixels(image)[y * 256 + x],
                    ),
            decreases 256 - py,
        {
            let mut px: u32 = 0;
            while px < TILE_RESOLUTION
                invariant
                    0 <= px <= 256,
                    0 <= py < 256,
                    tile == (TileNumbers { zoom, x: tile_x, y: tile_y }),
                    durations@ == self@.durations(stop_times@),
                    coordinates@.len() == self@.stops.len(),
                    forall|i: int|
                        0 <= i < self@.stops.len() ==> #[trigger] coordinates@[i]
                            == self@.stops[i].coordinates,
                    forall|c: Coordinates, x: u32, y: u32|
                        x < 256 && y < 256 ==> #[trigger] call_requires(distance, (c, tile, x, y)),
                    gray_width(image) == 256,
                    gray_pixels(image).len() == 65_536,
                    forall|x: u32, y: u32|
                        x < 256 && (y < py || (y == py && x < px)) ==> self@.is_pixel(
                            stop_times@,
                            distance,
                            tile,
                            x,
                            y,
                            #[trigger] gray_pixels(image)[y * 256 + x],
                        ),
                decreases 256 - px,
            {
                let (value, Ghost(distances)) = calculate_pixel_brightness(
                    px,
                    py,
                    &tile,
                    &coordinates,
                    &durations,
                    &distance,
                );
                let ghost before = gray_pixels(image);
                image.put(px, py, value);
                proof {
                    assert(self@.measured(stop_times@, distance, tile, px, py, distances));
                    assert(self@.is_pixel(stop_times@, distance, tile, px, py, value));
                    assert forall|x: u32, y: u32|
                        x < 256 && (y < py || (y == py && x < px + 1)) implies self@.is_pixel(
                        stop_times@,
                        distance,
                        tile,
                        x,
                        y,
                        #[trigger] gray_pixels(image)[y * 256 + x],
                    ) by {
                        if y == py && x == px {
                        } else {
                            assert(gray_pixels(image)[y * 256 + x] == before[y * 256 + x]);
                        }
                    }
                }
                px = px + 1;
            }
            py = py + 1;
        }
        image
    }
}

/// The brightness of a pixel does not depend on the distances from stops that the
/// table does not hold.
pub proof fn lemma_pixel_value_agrees(
    durations: Seq<Option<u64>>,
    first: Seq<u64>,
    second: Seq<u64>,
)
    requires
        first.len() == durations.len(),
        second.len() == durations.len(),
        forall|i: int|
            0 <= i < durations.len() && (#[trigger] durations[i]).is_some() ==> first[i]
                == second[i],
    ensures
        pixel_value(durations, first) == pixel_value(durations, second),
{
    lemma_best_time_agrees(durations, first, second, durations.len() as int);
}

proof fn lemma_best_time_agrees(
    durations: Seq<Option<u64>>,
    first: Seq<u64>,
    second: Seq<u64>,
    upto: int,
)
    requires
        0 <= upto <= durations.len(),
        first.len() == durations.len(),
        second.len() == durations.len(),
        forall|i: int|
            0 <= i < durations.len() && (#[trigger] durations[i]).is_some() ==> first[i]
                == second[i],
    ensures
        best_time(durations, first, upto) == best_time(durations, second, upto),
    decreases upto,
{
    if upto > 0 {
        lemma_best_time_agrees(durations, first, second, upto - 1);
        assert(durations[upto - 1].is_some() ==> first[upto - 1] == second[upto - 1]);
    }
}

/// Drawing the same tile twice from the same table gives the same bytes, wherever
/// the distance from a stop to a pixel is a function of its arguments.
pub proof fn lemma_tile_idempotent<F: Fn(Coordinates, TileNumbers, u32, u32) -> u64>(
    graph: GraphView,
    table: Map<Seq<char>, u64>,
    distance: F,
    tile: TileNumbers,
    first: Seq<u8>,
    second: Seq<u8>,
)
    requires
        forall|c: Coordinates, t: TileNumbers, px: u32, py: u32, a: u64, b: u64|
            #![trigger call_ensures(distance, (c, t, px, py), a), call_ensures(distance, (c, t, px, py), b)]
            call_ensures(distance, (c, t, px, py), a) && call_ensures(distance, (c, t, px, py), b)
                ==> a == b,
        graph.is_tile_image(table, distance, tile, first),
        graph.is_tile_image(table, distance, tile, second),
    ensures
        first == second,
{
    let durations = graph.durations(table);
    assert forall|q: int| 0 <= q < 65_536 implies first[q] == second[q] by {
        let px = (q % 256) as u32;
        let py = (q / 256) as u32;
        assert(q == py * 256 + px);
        assert(graph.is_pixel(table, distance, tile, px, py, first[py * 256 + px]));
        assert(graph.is_pixel(table, distance, tile, px, py, second[py * 256 + px]));
        let one = choose|distances: Seq<u64>|
            #![trigger pixel_value(durations, distances)]
            graph.measured(table, distance, tile, px, py, distances) && first[q] == pixel_value(
                durations,
                distances,
            );
        let two = choose|distances: Seq<u64>|
            #![trigger pixel_value(durations, distances)]
            graph.measured(table, distance, tile, px, py, distances) && second[q] == pixel_value(
                durations,
                distances,
            );
        assert forall|i: int| 0 <= i < durations.len() && (#[trigger] durations[i]).is_some() implies one[i]
            == two[i] by {
            assert(table.contains_key(graph.stops[i].id));
            assert(call_ensures(distance, (graph.stops[i].coordinates, tile, px, py), one[i]));
            assert(call_ensures(distance, (graph.stops[i].coordinates, tile, px, py), two[i]));
        }
        lemma_pixel_value_agrees(durations, one, two);
    }
    assert(first =~= second);
}

/// A tile drawn from an empty table is black.
pub proof fn lemma_empty_table_is_black<F: Fn(Coordinates, TileNumbers, u32, u32) -> u64>(
    graph: GraphView,
    distance: F,
    tile: TileNumbers,
    pixels: Seq<u8>,
)
    requires
        graph.is_tile_image(Map::<Seq<char>, u64>::empty(), distance, tile, pixels),
    ensures
        pixels == Seq::new(65_536, |i: int| 0u8),
{
    let table = Map::<Seq<char>, u64>::empty();
    let durations = graph.durations(table);
    assert forall|q: int| 0 <= q < 65_536 implies pixels[q] == 0 by {
        let px = (q % 256) as u32;
        let py = (q / 256) as u32;
        assert(q == py * 256 + px);
        assert(graph.is_pixel(table, distance, tile, px, py, pixels[py * 256 + px]));
        let distances = choose|distances: Seq<u64>|
            #![trigger pixel_value(durations, distances)]
            graph.measured(table, distance, tile, px, py, distances) && pixels[q] == pixel_value(
                durations,
                distances,
            );
        lemma_latest_none(durations, durations.len() as int);
    }
    assert(pixels =~= Seq::new(65_536, |i: int| 0u8));
}

proof fn lemma_latest_none(durations: Seq<Option<u64>>, upto: int)
    requires
        0 <= upto <= durations.len(),
        forall|i: int| 0 <= i < durations.len() ==> (#[trigger] durations[i]).is_none(),
    ensures
        latest(durations, upto).is_none(),
    decreases upto,
{
    if upto > 0 {
        lemma_latest_none(durations, upto - 1);
    }
}

/// The least time is the time by way of one of the stops of the table, and no stop of
/// the table gives a shorter one; there is none where the table holds no stop.
pub proof fn lemma_best_time_is_least(durations: Seq<Option<u64>>, distances: Seq<u64>, upto: int)
    requires
        0 <= upto <= durations.len(),
        distances.len() == durations.len(),
    ensures
        match best_time(durations, distances, upto) {
            Some(best) => {
                &&& exists|i: int|
                    0 <= i < upto && (#[trigger] durations[i]).is_some() && best == total_time(
                        durations[i].unwrap(),
                        distances[i],
                    )
                &&& forall|i: int|
                    0 <= i < upto && (#[trigger] durations[i]).is_some() ==> best <= total_time(
                        durations[i].unwrap(),
                        distances[i],
                    )
            },
            None => forall|i: int| 0 <= i < upto ==> (#[trigger] durations[i]).is_none(),
        },
    decreases upto,
{
    if upto > 0 {
        lemma_best_time_is_least(durations, distances, upto - 1);
        let last = upto - 1;
        match durations[last] {
            Some(duration) => {
                let total = total_time(duration, distances[last]);
                match best_time(durations, distances, last) {
                    Some(rest) => {
                        if total < rest {
                            assert(durations[last].is_some());
                        } else {
                            let i = choose|i: int|
                                0 <= i < last && (#[trigger] durations[i]).is_some() && rest
                                    == total_time(durations[i].unwrap(), distances[i]);
                            assert(0 <= i < upto && durations[i].is_some());
                        }
                    },
                    None => {
                        assert(durations[last].is_some());
                    },
                }
            },
            None => {
                match best_time(durations, distances, last) {
                    Some(rest) => {
                        let i = choose|i: int|
                            0 <= i < last && (#[trigger] durations[i]).is_some() && rest
                                == total_time(durations[i].unwrap(), distances[i]);
                        assert(0 <= i < upto && durations[i].is_some());
                    },
                    None => {},
                }
            },
        }
    }
}

/// The greatest duration is that of one of the stops of the table, and no stop of the
/// table has a greater one; there is none where the table holds no stop.
pub proof fn lemma_latest_is_greatest(durations: Seq<Option<u64>>, upto: int)
    requires
        0 <= upto <= durations.len(),
    ensures
        match latest(durations, upto) {
            Some(most) => {
                &&& exists|i: int|
                    0 <= i < upto && (#[trigger] durations[i]).is_some() && most
                        == durations[i].unwrap()
                &&& forall|i: int|
                    0 <= i < upto && (#[trigger] durations[i]).is_some() ==> durations[i].unwrap()
                        <= most
            },
            None => forall|i: int| 0 <= i < upto ==> (#[trigger] durations[i]).is_none(),
        },
    decreases upto,
{
    if upto > 0 {
        lemma_latest_is_greatest(durations, upto - 1);
        let last = upto - 1;
        match latest(durations, last) {
            Some(rest) => {
                let i = choose|i: int|
                    0 <= i < last && (#[trigger] durations[i]).is_some() && rest
                        == durations[i].unwrap();
                assert(0 <= i < upto && durations[i].is_some());
                if durations[last].is_some() {
                    assert(0 <= last < upto && durations[last].is_some());
                }
            },
            None => {
                if durations[last].is_some() {
                    assert(0 <= last < upto && durations[last].is_some());
                }
            },
        }
    }
}

} // verus!
