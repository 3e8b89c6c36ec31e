//! A library of polygon shapes mined from level files: identifiers for the
//! source files, normalized polygons, a mergeable store of them, and the
//! assembly of new levels out of sampled polygons.
//!
//! Coordinates are fixed-point integers; converting a level's floating-point
//! coordinates to them is left to the caller.

pub mod db;
pub mod gen;
pub mod lfn;
pub mod se;

pub use db::Db;
pub use gen::{GenerateError, GeneratedLevel};
pub use lfn::{format_level_name, is_level_file_name, LevelFileName};
pub use se::{LevelGeometry, SerPolygon, SerPolygonOwner, SerVertex, Shape};
