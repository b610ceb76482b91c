//! Geographic coordinates and slippy-map tile addresses, held as integers.
//!
//! Angles are stored in fixed point, as a whole number of 1e-7 degrees, so that
//! their ranges can be stated and checked exactly.

use vstd::prelude::*;

verus! {

/// One degree, in the unit in which coordinates are stored.
pub const UNITS_PER_DEGREE: i32 = 10_000_000;

/// The largest latitude, 90 degrees north.
pub const MAX_LATITUDE: i32 = 900_000_000;

/// The largest longitude, 180 degrees east.
pub const MAX_LONGITUDE: i32 = 1_800_000_000;

/// The deepest zoom level of a tile address.
pub const MAX_ZOOM: u32 = 22;

/// A point on the globe: latitude and longitude in units of 1e-7 degrees.
#[derive(Clone, Copy, Debug, PartialEq, Eq, Structural)]
pub struct Coordinates {
    pub latitude: i32,
    pub longitude: i32,
}

impl Default for Coordinates {
    fn default() -> (point: Coordinates)
        ensures
            point == (Coordinates { latitude: 0, longitude: 0 }),
    {
        Coordinates { latitude: 0, longitude: 0 }
    }
}

impl Coordinates {
    /// Latitude within [-90, 90] degrees and longitude within [-180, 180] degrees.
    pub open spec fn valid(self) -> bool {
        &&& -900_000_000 <= self.latitude <= 900_000_000
        &&& -1_800_000_000 <= self.longitude <= 1_800_000_000
    }

    /// The point with the given latitude and longitude, if both are in range.
    pub fn new(latitude: i32, longitude: i32) -> (r: Option<Coordinates>)
        ensures
            r == if (Coordinates { latitude, longitude }).valid() {
                Some(Coordinates { latitude, longitude })
            } else {
                None
            },
    {
        if -MAX_LATITUDE <= latitude && latitude <= MAX_LATITUDE && -MAX_LONGITUDE <= longitude
            && longitude <= MAX_LONGITUDE {
            Some(Coordinates { latitude, longitude })
        } else {
            None
        }
    }

    /// Whether the point lies within the ranges of latitude and longitude.
    pub fn is_valid(&self) -> (r: bool)
        ensures
            r == self.valid(),
    {
        -MAX_LATITUDE <= self.latitude && self.latitude <= MAX_LATITUDE && -MAX_LONGITUDE
            <= self.longitude && self.longitude <= MAX_LONGITUDE
    }
}

/// Two to the power `zoom`: the number of tiles along each axis at that zoom level.
pub open spec fn tiles_per_axis(zoom: nat) -> nat
    decreases zoom,
{
    if zoom == 0 {
        1
    } else {
        2 * tiles_per_axis((zoom - 1) as nat)
    }
}

/// The address of a map tile: zoom level, column and row.
#[derive(Clone, Copy, Debug, PartialEq, Eq, Structural)]
pub struct TileNumbers {
    pub zoom: u32,
    pub x: u32,
    pub y: u32,
}

impl TileNumbers {
    /// The zoom level is at most 22 and column and row lie within the grid of that level.
    pub open spec fn valid(self) -> bool {
        &&& self.zoom <= 22
        &&& self.x < tiles_per_axis(self.zoom as nat)
        &&& self.y < tiles_per_axis(self.zoom as nat)
    }

    /// The tile with the given address, if the address exists.
    pub fn new(zoom: u32, x: u32, y: u32) -> (r: Option<TileNumbers>)
        ensures
            r == if (TileNumbers { zoom, x, y }).valid() {
                Some(TileNumbers { zoom, x, y })
            } else {
                None
            },
    {
        let tile = TileNumbers { zoom, x, y };
        if tile.is_valid() {
            Some(tile)
        } else {
            None
        }
    }

    /// Whether the address exists.
    pub fn is_valid(&self) -> (r: bool)
        ensures
            r == self.valid(),
    {
        if self.zoom > MAX_ZOOM {
            return false;
        }
        let n: u32 = grid_size(self.zoom);
        self.x < n && self.y < n
    }
}

/// The number of tiles along each axis at a zoom level of at most 22.
pub fn grid_size(zoom: u32) -> (n: u32)
    requires
        zoom <= 22,
    ensures
        n == tiles_per_axis(zoom as nat),
        n <= 4_194_304,
{
    let mut n: u32 = 1;
    let mut level: u32 = 0;
    proof {
        lemma_grid_total();
    }
    while level < zoom
        invariant
            level <= zoom <= 22,
            n == tiles_per_axis(level as nat),
            n * tiles_per_axis((22 - level) as nat) == 4_194_304,
        decreases zoom - level,
    {
        proof {
            assert(tiles_per_axis((22 - level) as nat) == 2 * tiles_per_axis((22 - level - 1) as nat));
            assert(n * (2 * tiles_per_axis((22 - level - 1) as nat)) == (2 * n) * tiles_per_axis(
                (22 - level - 1) as nat,
            )) by (nonlinear_arith);
            assert(tiles_per_axis((22 - level - 1) as nat) >= 1) by {
                lemma_grid_positive((22 - level - 1) as nat);
            }
            assert(2 * n <= 4_194_304) by (nonlinear_arith)
                requires
                    (2 * n) * tiles_per_axis((22 - level - 1) as nat) == 4_194_304,
                    tiles_per_axis((22 - level - 1) as nat) >= 1,
            ;
        }
        n = 2 * n;
        level = level + 1;
    }
    proof {
        lemma_grid_positive((22 - level) as nat);
        assert(n <= 4_194_304) by (nonlinear_arith)
            requires
                n * tiles_per_axis((22 - level) as nat) == 4_194_304,
                tiles_per_axis((22 - level) as nat) >= 1,
        ;
    }
    n
}

/// Every zoom level has at least one tile along each axis.
pub proof fn lemma_grid_positive(zoom: nat)
    ensures
        tiles_per_axis(zoom) >= 1,
    decreases zoom,
{
    if zoom > 0 {
        lemma_grid_positive((zoom - 1) as nat);
    }
}

/// The deepest zoom level has 4,194,304 tiles along each axis.
pub proof fn lemma_grid_total()
    ensures
        tiles_per_axis(22) == 4_194_304,
{
    reveal_with_fuel(tiles_per_axis, 23);
}

} // verus!
