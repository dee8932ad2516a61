//! Tile-map generation front-end for a wave-function-collapse engine.
//!
//! A sample tile map is turned into a catalog of overlapping patterns, the
//! engine is retried a bounded number of times to collapse an output map, and
//! an optional boundary constraint forces the far edges of the output to be
//! drawn only from pattern identities seen at the sample's bottom-right
//! corner. The result can be rendered to raster bytes, tabular text, or a
//! map-editor layer.

use vstd::prelude::*;

pub mod catalog;
pub mod engine;
pub mod forbid;
pub mod grid;
pub mod numfmt;
pub mod raster;
pub mod tabular;
pub mod tiled;
pub mod wave;

pub use catalog::TilePattern;
pub use engine::{CollapseEngine, ScriptedEngine, WfcEngine};
pub use forbid::ForceBorderForbid;
pub use grid::TileGrid;
pub use raster::{grid_rgba_bytes, grid_to_image, u32conv};
pub use tabular::{grid_from_csv_bytes, grid_to_csv_bytes};
pub use tiled::{tiled_layer_bytes, TileSet};
pub use wave::WaveModel;

verus! {

/// The failures this library reports.
#[derive(Debug, PartialEq, Eq, Structural, Clone, Copy)]
pub enum WfcError {
    /// The boundary constraint referenced a sample coordinate outside the
    /// sample's bounds: the sample is too small for the pattern size.
    OutOfRange,
    /// Ragged or empty tabular input.
    MalformedInput,
    /// The engine contradicted on every attempt; carries the number of
    /// attempts that were exhausted.
    PropagationFailed(usize),
    /// An underlying read or write failed. Never produced by this library
    /// itself; callers doing file work report it with this kind.
    IOFailure,
}

} // verus!
