use gtfs_heatmap_lib::coords::{Coordinates, TileNumbers};
use gtfs_heatmap_lib::gtfs_graph::heatmap::{calculate_pixel_brightness, scale_brightness};
use gtfs_heatmap_lib::dijkstras::TimeLookupTable;
use gtfs_heatmap_lib::gtfs_graph::GtfsGraph;


fn record(id: &str, latitude: i32, longitude: i32) -> gtfs_heatmap_lib::gtfs_types::Stop {
    gtfs_heatmap_lib::gtfs_types::Stop {
        stop_id: id.to_string(),
        stop_code: String::new(),
        stop_name: String::new(),
        stop_desc: String::new(),
        coordinates: Coordinates { latitude, longitude },
        zone_id: String::new(),
        stop_url: String::new(),
        location_type: 0,
        parent_station: String::new(),
        wheelchair_boarding: 0,
    }
}

fn degrees(units: i32) -> f64 {
    units as f64 / 10_000_000.0
}

/// The coordinates, in degrees, of a pixel of a tile.
fn pixel_coordinates(tile: TileNumbers, px: u32, py: u32) -> (f64, f64) {
    let n = 2f64.powi(tile.zoom as i32);
    let longitude = (tile.x as f64 + px as f64 / 256.0) / n * 360.0 - 180.0;
    let latitude = (std::f64::consts::PI * (1.0 - 2.0 * ((tile.y as f64 + py as f64 / 256.0) / n)))
        .sinh()
        .atan()
        .to_degrees();
    (latitude, longitude)
}

/// The great-circle distance in millimetres between a stop and a pixel of a tile.
fn haversine(stop: Coordinates, tile: TileNumbers, px: u32, py: u32) -> u64 {
    let (latitude, longitude) = pixel_coordinates(tile, px, py);
    let d_lat = (latitude - degrees(stop.latitude)).to_radians();
    let d_lon = (longitude - degrees(stop.longitude)).to_radians();
    let lat1 = degrees(stop.latitude).to_radians();
    let lat2 = latitude.to_radians();
    let a = (d_lat / 2.0).sin().powi(2) + (d_lon / 2.0).sin().powi(2) * lat1.cos() * lat2.cos();
    let c = 2.0 * a.sqrt().atan2((1.0 - a).sqrt());
    (6_371_000.0 * c * 1000.0) as u64
}

fn single_stop() -> (GtfsGraph, TimeLookupTable) {
    let mut graph = GtfsGraph::new();
    graph.insert_stop(record("S", 0, 0)).unwrap();
    let mut table = TimeLookupTable::new();
    table.insert("S".to_string(), 0);
    (graph, table)
}

#[test]
fn tile_render_single_stop() {
    let (graph, table) = single_stop();
    let tile = graph.generate_heatmap_tile(10, 512, 512, &table, haversine);
    assert_eq!(tile.width(), 256);
    let bytes = tile.to_bytes();
    assert_eq!(bytes.len(), 65_536);
    // The corner of the tile lies on the stop.
    assert_eq!(bytes[0], 0);
    // About 153 m east of the stop: 109 s of walking, of 2700.
    assert_eq!(bytes[1], 10);
    // Far from the stop the brightness is at its greatest.
    assert_eq!(bytes[128 * 256 + 128], 255);
    assert_eq!(bytes[255 * 256 + 255], 255);
    assert_eq!(bytes[255], 255);
}

#[test]
fn tile_render_with_the_stop_at_the_centre() {
    // A flat map in which one pixel is ten metres wide and the stop lies at the
    // middle of the tile.
    let (graph, table) = single_stop();
    let flat = |_: Coordinates, _: TileNumbers, px: u32, py: u32| -> u64 {
        let dx = px as f64 - 128.0;
        let dy = py as f64 - 128.0;
        ((dx * dx + dy * dy).sqrt() * 10_000.0) as u64
    };
    let bytes = graph.generate_heatmap_tile(10, 512, 512, &table, flat).to_bytes();
    assert_eq!(bytes[128 * 256 + 128], 0);
    // 1280 m along the row: 914 s of walking, of 2700.
    assert_eq!(bytes[128 * 256], 86);
    // About 1810 m to the first corner: 1292 s of walking, of 2700.
    assert_eq!(bytes[0], 122);
    // About 1796 m to the last corner: 1282 s of walking, of 2700.
    assert_eq!(bytes[255 * 256 + 255], 121);
}

#[test]
fn tile_render_twice_gives_the_same_bytes() {
    let mut graph = GtfsGraph::new();
    graph.insert_stop(record("S", 0, 0)).unwrap();
    graph.insert_stop(record("T", -1_000_000, 2_000_000)).unwrap();
    graph.insert_stop(record("U", -3_000_000, 3_000_000)).unwrap();
    let mut table = TimeLookupTable::new();
    table.insert("S".to_string(), 0);
    table.insert("T".to_string(), 900);
    let first = graph.generate_heatmap_tile(10, 512, 512, &table, haversine).to_bytes();
    let second = graph.generate_heatmap_tile(10, 512, 512, &table, haversine).to_bytes();
    assert_eq!(first, second);
    assert_eq!(first.len(), 65_536);
}

#[test]
fn tile_render_of_an_empty_table_is_black() {
    let (graph, _) = single_stop();
    let table: TimeLookupTable = TimeLookupTable::new();
    let bytes = graph.generate_heatmap_tile(3, 1, 2, &table, haversine).to_bytes();
    assert_eq!(bytes, vec![0u8; 65_536]);
}

#[test]
fn tile_render_passes_over_ids_that_the_graph_lacks() {
    let (graph, _) = single_stop();
    let mut table: TimeLookupTable = TimeLookupTable::new();
    table.insert("elsewhere".to_string(), 5);
    let bytes = graph.generate_heatmap_tile(3, 1, 2, &table, haversine).to_bytes();
    assert_eq!(bytes, vec![0u8; 65_536]);
}

#[test]
fn tile_render_takes_the_nearest_way() {
    let mut graph = GtfsGraph::new();
    graph.insert_stop(record("S", 0, 0)).unwrap();
    graph.insert_stop(record("T", 0, 0)).unwrap();
    let mut table = TimeLookupTable::new();
    table.insert("S".to_string(), 1_000);
    table.insert("T".to_string(), 400);
    // Every pixel is 140 m from S and 1400 m from T.
    let way = |_: Coordinates, _: TileNumbers, _: u32, _: u32| -> u64 { 140_000 };
    let bytes = graph.generate_heatmap_tile(0, 0, 0, &table, way).to_bytes();
    // The best is 400 + 100 s, on a scale of 1000 + 2700 s.
    assert_eq!(bytes[0], (500 * 255 / 3_700) as u8);
    assert_eq!(bytes[65_535], 34);
}

#[test]
fn pixel_brightness_exact_values() {
    let tile = TileNumbers { zoom: 0, x: 0, y: 0 };
    let coordinates = vec![Coordinates { latitude: 0, longitude: 0 }; 3];
    let way = |_: Coordinates, _: TileNumbers, px: u32, _: u32| -> u64 { px as u64 * 1_400 };
    let durations = vec![Some(600), None, Some(60)];
    // The best is 60 + px, on a scale of 600 + 2700 s.
    let (value, _) = calculate_pixel_brightness(0, 0, &tile, &coordinates, &durations, &way);
    assert_eq!(value, 4);
    let (value, _) = calculate_pixel_brightness(100, 0, &tile, &coordinates, &durations, &way);
    assert_eq!(value, 12);
    let (value, _) = calculate_pixel_brightness(255, 0, &tile, &coordinates, &durations, &way);
    assert_eq!(value, 24);
    let none = vec![None, None, None];
    let (value, _) = calculate_pixel_brightness(255, 0, &tile, &coordinates, &none, &way);
    assert_eq!(value, 0);
}

#[test]
fn brightness_scale() {
    assert_eq!(scale_brightness(0, 2_700), 0);
    assert_eq!(scale_brightness(1_350, 2_700), 127);
    assert_eq!(scale_brightness(2_699, 2_700), 254);
    assert_eq!(scale_brightness(2_700, 2_700), 255);
    assert_eq!(scale_brightness(1_000_000, 2_700), 255);
    assert_eq!(scale_brightness(2 * u64::MAX as u128, 1), 255);
}

#[test]
fn tile_addresses() {
    assert_eq!(TileNumbers::new(0, 0, 0), Some(TileNumbers { zoom: 0, x: 0, y: 0 }));
    assert_eq!(TileNumbers::new(0, 1, 0), None);
    assert_eq!(TileNumbers::new(10, 1023, 1023), Some(TileNumbers { zoom: 10, x: 1023, y: 1023 }));
    assert_eq!(TileNumbers::new(10, 1024, 0), None);
    assert_eq!(TileNumbers::new(10, 0, 1024), None);
    assert!(TileNumbers { zoom: 22, x: 4_194_303, y: 4_194_303 }.is_valid());
    assert!(!TileNumbers { zoom: 22, x: 4_194_304, y: 0 }.is_valid());
    assert!(!TileNumbers { zoom: 23, x: 0, y: 0 }.is_valid());
    assert_eq!(gtfs_heatmap_lib::coords::grid_size(18), 262_144);
}

#[test]
fn coordinates_in_range() {
    assert_eq!(
        Coordinates::new(900_000_000, -1_800_000_000),
        Some(Coordinates { latitude: 900_000_000, longitude: -1_800_000_000 })
    );
    assert_eq!(Coordinates::new(900_000_001, 0), None);
    assert_eq!(Coordinates::new(-900_000_001, 0), None);
    assert_eq!(Coordinates::new(0, 1_800_000_001), None);
    assert_eq!(Coordinates::new(0, -1_800_000_001), None);
    assert!(Coordinates { latitude: 601_700_000, longitude: 249_400_000 }.is_valid());
    assert!(!Coordinates { latitude: 0, longitude: i32::MIN }.is_valid());
}
