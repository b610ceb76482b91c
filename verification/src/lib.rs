//! Transit reachability and travel-time heatmaps over a scheduled network.

pub mod coords;
pub mod dijkstras;
pub mod gtfs_graph;
pub mod gtfs_types;
pub mod raster;
